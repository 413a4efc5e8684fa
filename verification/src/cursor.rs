//! A sequential cursor over the table: a row number together with an
//! end-of-table marker, resolved on demand to a page number and an
//! in-page byte offset.

use vstd::prelude::*;

use crate::row::ROW_SIZE;
use crate::table::{ROWS_PER_PAGE, TABLE_MAX_PAGES, Table};

verus! {

/// A position in the table, counted in rows.
pub struct Cursor {
    pub row_num: usize,
    pub end_of_table: bool,
}

impl Cursor {
    /// A cursor at the start of the table; an empty table starts at its
    /// end.
    pub fn new(table: &Table) -> (c: Cursor)
        ensures
            c.row_num == 0,
            c.end_of_table == (table.num_rows == 0),
    {
        let end_of_table = table.num_rows == 0;
        Cursor { row_num: 0, end_of_table }
    }

    /// A cursor past the last row of the table.
    pub fn table_end(table: &Table) -> (c: Cursor)
        ensures
            c.row_num == table.num_rows,
            c.end_of_table,
    {
        Cursor { row_num: table.num_rows, end_of_table: true }
    }

    /// Moves one row forward; the cursor reaching the row count marks
    /// the end of the table and the marker is never cleared again.
    pub fn advance(&mut self, table: &Table)
        requires
            old(self).row_num < usize::MAX,
        ensures
            final(self).row_num == old(self).row_num + 1,
            final(self).end_of_table == (old(self).end_of_table || old(self).row_num + 1
                >= table.num_rows),
    {
        self.row_num += 1;
        if self.row_num >= table.num_rows {
            self.end_of_table = true;
        }
    }

    /// The page that holds the cursor's row.
    pub fn value(&self) -> (page_num: usize)
        requires
            self.row_num / ROWS_PER_PAGE < TABLE_MAX_PAGES,
        ensures
            page_num == self.row_num / ROWS_PER_PAGE,
    {
        self.row_num / ROWS_PER_PAGE
    }

    /// The byte offset of the cursor's row within its page.
    pub fn byte_offset(&self) -> (off: usize)
        ensures
            off == (self.row_num % ROWS_PER_PAGE) * ROW_SIZE,
    {
        let row_offset = self.row_num % ROWS_PER_PAGE;
        row_offset * ROW_SIZE
    }
}

} // verus!
