//! Error kinds of the statement layer.  The textual `insert`/`select`
//! statement handling itself lives with the interactive shell, outside
//! the storage core; these are the results it reports.

use vstd::prelude::*;

verus! {

/// Why an `insert` statement was rejected.
#[derive(Debug, PartialEq, Eq, Structural)]
pub enum InsertError {
    NotEnoughArgs { got: usize, expected: usize },
    FlushError,
}

/// Why a `select` statement was rejected.
#[derive(Debug, PartialEq, Eq, Structural)]
pub enum SelectError {
    NotEnoughArgs { got: usize, expected: usize },
    OutOfBounds,
}

} // verus!
