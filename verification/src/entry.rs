//! Result types: one cell of the matrix, as handed back to callers.

use vstd::prelude::*;

verus! {

/// A read-only snapshot of one matrix cell, as returned by the
/// non-destructive queries.  It carries its own copies of the key and weight,
/// so it stays valid however the matrix is mutated afterwards.
#[derive(Debug, Clone, PartialEq, Eq)]
pub struct BorrowedEntry {
    pub row: char,
    pub column: String,
    pub weight: i32,
}

/// An independent copy of one matrix cell, as returned by the destructive
/// operations.
#[derive(Debug, Clone, PartialEq, Eq)]
pub struct OwnedEntry {
    pub row: char,
    pub column: String,
    pub weight: i32,
}

} // verus!
