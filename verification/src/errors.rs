//! Error kinds shared by the storage layer and the ordered index.

use vstd::prelude::*;

verus! {

/// Everything that can go wrong inside the storage core.
///
/// Absence of a key in the index is a normal result (an empty location
/// list), never an error; `NotFound` is reserved for row lookups past
/// the end of the table.
#[derive(Clone, Copy, Debug, PartialEq, Eq, Structural)]
pub enum DbError {
    /// A page number or row id beyond the configured capacity.
    OutOfBounds,
    /// A flush size larger than a page, or a flush of a non-resident page.
    InvalidFlushSize,
    /// A byte slice narrower than the field it should hold.
    DecodeError,
    /// A tree node whose child count does not match its key count.
    StructuralCorruption,
    /// A row id past the current end of the table.
    NotFound,
}

} // verus!
