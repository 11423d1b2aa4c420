//! Enumeration and symmetry analysis of finite operation tables.
//!
//! The crate generates every Latin square / group operation table of a given
//! order, computes conjugates (relabelings) under permutations, classifies
//! each table as a quasigroup, loop, group or abelian group, and derives the
//! automorphism and affine-automorphism records used to fingerprint and group
//! structures with the same symmetry profile.

pub mod abelian;
pub mod bits;
pub mod classification;
pub mod codec;
pub mod common;
pub mod latin_square;
pub mod permutation;
pub mod sidedness;
pub mod table;

pub use abelian::apply_permutation_to_group;
pub use abelian::compose_affine_permutation;
pub use abelian::generate_all_associativity_triplets;
pub use abelian::generate_all_groups;
pub use abelian::generate_all_groups_new;
pub use abelian::generate_all_sudocurity_groups;
pub use abelian::generate_all_sudocurity_groups_new;
pub use abelian::group_add_new;
pub use abelian::group_generation_recursion;
pub use abelian::group_generation_recursion_new;
pub use abelian::is_group_associative;
pub use abelian::swap_rows_and_columns;
pub use bits::Bits;
pub use classification::AffineAutomorphism;
pub use classification::AllAffineAutomorphisms;
pub use classification::LatinSquareClassification;
pub use classification::classify_all_latin_squares;
pub use codec::decode_tables;
pub use codec::encode_tables;
pub use common::factorial;
pub use latin_square::LatinSquare;
pub use latin_square::LatinStructure;
pub use latin_square::LatinType;
pub use latin_square::PartialLatinSquare;
pub use latin_square::latin_square_recursion;
pub use permutation::Permutation;
pub use permutation::generate_all_permutations;
pub use permutation::generate_sudocurity_permutations;
pub use permutation::permutation_recursion;
pub use sidedness::Sidedness;
pub use table::PermutationInformation;
pub use table::SquareInformation;
pub use table::Table;
pub use table::create_complete_table;
pub use table::create_summary_table;
pub use table::max_length;
