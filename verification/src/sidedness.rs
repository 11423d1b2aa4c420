use vstd::prelude::*;

verus! {

/// Which side a translation acts on: left translations use a row of the
/// table, right translations a column.
#[derive(Clone, Copy, Debug, PartialEq, Eq, Structural)]
pub enum Sidedness {
    Left,
    Right,
}

} // verus!
