[package]
name = "latin_structures"
version = "0.1.0"
edition = "2021"
publish = false

[dependencies]
icu_locale_core = "*"
indicatif = "=0.18.6"
spreadsheet-ods = "=1.0.4"
