//! The ways a query on a table or the building of a tree can fail.

use vstd::prelude::*;

verus! {

/// Why an operation gave no result.
#[derive(Debug, Clone, Copy, PartialEq, Eq, Structural)]
pub enum Id3Error {
    /// A column was named that the table does not have.
    InvalidColumn,
    /// A feature had to be chosen and there was none to choose from.
    EmptyCandidateSet,
    /// A tree was asked for a table without rows.
    EmptyDataset,
}

} // verus!
