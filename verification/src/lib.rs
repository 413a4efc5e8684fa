//! A minimal persistent row store: a fixed-width row codec, a bounded
//! page cache over a file image, a sequential cursor, and an in-memory
//! 2-3 search tree mapping integer keys to byte-range locations.

use vstd::prelude::*;

pub mod btree;
pub mod cursor;
pub mod errors;
pub mod persistence;
pub mod row;
pub mod statement;
pub mod table;

pub use btree::BTree;
pub use btree::Location;
pub use btree::ValueStruct;
pub use errors::DbError;
pub use row::Row;
pub use row::decode_row;
pub use row::encode_row;
pub use row::slice_to_32;
pub use row::slice_to_255;
pub use row::to_fixed_32_truncate;
pub use row::to_fixed_255_truncate;
pub use cursor::Cursor;
pub use persistence::FlushOp;
pub use persistence::Pager;
pub use statement::InsertError;
pub use statement::SelectError;
pub use table::Table;
pub use table::calc_offset;
pub use table::fetch_row;
pub use table::insert_row;

verus! {

/// Command-line options of the database shell: the name of the backing
/// database file.
pub struct Args {
    pub database: String,
}

} // verus!
