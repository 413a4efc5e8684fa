//! The pager: a bounded array of lazily materialized page buffers and
//! the flush policy that decides, page by page, which bytes go back to
//! the backing file.  The file itself is driven by the caller, which
//! performs each returned write in order.

use vstd::prelude::*;

use crate::errors::DbError;
use crate::table::{PAGE_SIZE, TABLE_MAX_PAGES};

verus! {

/// One pending write: `bytes` belongs at `offset` in the backing file.
#[derive(Debug)]
pub struct FlushOp {
    pub page_num: usize,
    pub offset: u64,
    pub bytes: Vec<u8>,
}

/// The page cache: the number of bytes written so far and one optional
/// buffer per page slot.
pub struct Pager {
    pub content_length: usize,
    pub pages: Vec<Option<Vec<u8>>>,
}

impl Pager {
    /// Every slot exists and every resident page is exactly one page long.
    pub open spec fn wf(self) -> bool {
        &&& self.pages@.len() == TABLE_MAX_PAGES
        &&& forall|i: int|
            0 <= i < self.pages@.len() ==> ((#[trigger] self.pages@[i]) matches Some(p)
                ==> p@.len() == PAGE_SIZE)
    }

    /// Whether the slot `i` holds a resident page.
    pub open spec fn resident(self, i: int) -> bool {
        self.pages@[i] is Some
    }

    /// The bytes of the resident page in slot `i`.
    pub open spec fn page_seq(self, i: int) -> Seq<u8> {
        self.pages@[i].unwrap()@
    }

    /// Computes the write that flushing `page_num` performs: `size`
    /// bytes of the resident page, at the page's offset in the file.
    /// Fails on a slot out of bounds, a non-resident page, or a size
    /// beyond one page.
    pub fn flush(&self, page_num: usize, size: usize) -> (r: Result<FlushOp, DbError>)
        requires
            self.wf(),
        ensures
            r is Ok <==> (page_num < TABLE_MAX_PAGES && self.resident(page_num as int) && size
                <= PAGE_SIZE),
            page_num >= TABLE_MAX_PAGES ==> r == Err::<FlushOp, DbError>(DbError::OutOfBounds),
            page_num < TABLE_MAX_PAGES && !self.resident(page_num as int) ==> r == Err::<
                FlushOp,
                DbError,
            >(DbError::InvalidFlushSize),
            page_num < TABLE_MAX_PAGES && self.resident(page_num as int) && size > PAGE_SIZE
                ==> r == Err::<FlushOp, DbError>(DbError::InvalidFlushSize),
            r matches Ok(op) ==> {
                &&& op.page_num == page_num
                &&& op.offset == page_num * PAGE_SIZE
                &&& op.bytes@ == self.page_seq(page_num as int).subrange(0, size as int)
            },
    {
        if page_num >= TABLE_MAX_PAGES {
            return Err(DbError::OutOfBounds);
        }
        match &self.pages[page_num] {
            None => Err(DbError::InvalidFlushSize),
            Some(page) => {
                if size > PAGE_SIZE {
                    return Err(DbError::InvalidFlushSize);
                }
                let mut bytes: Vec<u8> = Vec::new();
                let mut i: usize = 0;
                while i < size
                    invariant
                        i <= size,
                        size <= page@.len(),
                        bytes@ == page@.subrange(0, i as int),
                    decreases size - i,
                {
                    bytes.push(page[i]);
                    proof {
                        assert(bytes@ =~= page@.subrange(0, i + 1));
                    }
                    i += 1;
                }
                Ok(FlushOp { page_num, offset: (page_num * PAGE_SIZE) as u64, bytes })
            },
        }
    }
}

} // verus!
