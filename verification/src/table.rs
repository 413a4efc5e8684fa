//! The page store: a table of fixed-width rows packed into fixed-size
//! pages, direct-addressed by row id.  Pages materialize lazily: a page
//! beyond the bytes written so far starts as zeros, while one inside
//! the written region is filled from the backing file.  The store never
//! touches the file itself; it computes each read (`page_read_plan`)
//! and each write (`db_close`) and the caller performs them.

use vstd::prelude::*;

use crate::errors::DbError;
use crate::persistence::{FlushOp, Pager};
use crate::row::{
    EMAIL_SIZE, ID_SIZE, ROW_SIZE, Row, USERNAME_SIZE, encode_row, fixed_width, pad_trunc,
    spec_record_bytes, to_fixed_32_truncate, to_fixed_255_truncate, zero_bytes,
};
use crate::row::decode_row;

verus! {

/// Size of one page in bytes.
pub const PAGE_SIZE: usize = 4096;

/// How many full rows fit in one page.
pub const ROWS_PER_PAGE: usize = PAGE_SIZE / ROW_SIZE;

/// Upper bound on the number of cached pages.
pub const TABLE_MAX_PAGES: usize = 100;

/// Upper bound on the row ids the direct-addressing scheme can place.
pub const TABLE_MAX_ROWS: usize = ROWS_PER_PAGE * TABLE_MAX_PAGES;

/// The number of pages the first `cl` bytes of the file span.
pub open spec fn pages_on_file(cl: int) -> int {
    if cl % (PAGE_SIZE as int) == 0 {
        cl / (PAGE_SIZE as int)
    } else {
        cl / (PAGE_SIZE as int) + 1
    }
}

/// How many bytes a lazy load of page `pn` reads from a file holding
/// `cl` bytes: a full page, or the trailing remainder for the last
/// partial page.
pub open spec fn read_len_for(cl: int, pn: int) -> int {
    if pn == pages_on_file(cl) - 1 && cl % (PAGE_SIZE as int) != 0 {
        cl % (PAGE_SIZE as int)
    } else {
        PAGE_SIZE as int
    }
}

/// The page a row id lives in under direct addressing.
pub open spec fn spec_page_num(id: int) -> int {
    id / (ROWS_PER_PAGE as int)
}

/// The byte offset of a row id within its page.
pub open spec fn spec_byte_offset(id: int) -> int {
    (id % (ROWS_PER_PAGE as int)) * (ROW_SIZE as int)
}

/// A table: the logical row count and the page cache beneath it.
pub struct Table {
    pub num_rows: usize,
    pub pager: Pager,
}

impl Table {
    /// The table's structural invariant: the pager's.
    pub open spec fn wf(self) -> bool {
        self.pager.wf()
    }

    /// Whether page `pn` can be used without first reading the file:
    /// it is resident already, or lies wholly beyond the written bytes.
    pub open spec fn page_ready(self, pn: int) -> bool {
        self.pager.resident(pn) || pn >= pages_on_file(self.pager.content_length as int)
    }

    /// The bytes page `pn` starts from when it materializes: its
    /// resident content, or zeros.
    pub open spec fn page_base(self, pn: int) -> Seq<u8> {
        if self.pager.resident(pn) {
            self.pager.page_seq(pn)
        } else {
            zero_bytes(PAGE_SIZE as int)
        }
    }

    /// Opens a table over a file of `file_length` bytes: the row count
    /// is inferred from the length alone (a trailing partial record is
    /// silently ignored) and no page is resident yet.
    pub fn db_open(file_length: usize) -> (t: Table)
        ensures
            t.wf(),
            t.num_rows == file_length / ROW_SIZE,
            t.pager.content_length == file_length,
            forall|i: int| 0 <= i < TABLE_MAX_PAGES ==> !t.pager.resident(i),
    {
        let mut pages: Vec<Option<Vec<u8>>> = Vec::new();
        let mut i: usize = 0;
        while i < TABLE_MAX_PAGES
            invariant
                i <= TABLE_MAX_PAGES,
                pages@.len() == i,
                forall|j: int| 0 <= j < i ==> pages@[j] is None,
            decreases TABLE_MAX_PAGES - i,
        {
            pages.push(None);
            i += 1;
        }
        Table {
            num_rows: file_length / ROW_SIZE,
            pager: Pager { content_length: file_length, pages },
        }
    }

    /// The file read that must happen before page `page_num` can be
    /// used: `None` when none is needed, otherwise the offset and the
    /// number of bytes (a full page, or the trailing remainder).
    pub fn page_read_plan(&self, page_num: usize) -> (r: Result<Option<(u64, usize)>, DbError>)
        requires
            self.wf(),
        ensures
            r is Ok <==> page_num < TABLE_MAX_PAGES,
            r is Err ==> r == Err::<Option<(u64, usize)>, DbError>(DbError::OutOfBounds),
            r matches Ok(plan) ==> {
                &&& (plan is None <==> self.page_ready(page_num as int))
                &&& (plan matches Some(p) ==> p.0 == page_num * PAGE_SIZE && p.1 == read_len_for(
                    self.pager.content_length as int,
                    page_num as int,
                ))
            },
    {
        if page_num >= TABLE_MAX_PAGES {
            return Err(DbError::OutOfBounds);
        }
        if self.pager.pages[page_num].is_some() {
            return Ok(None);
        }
        let mut num_pages = self.pager.content_length / PAGE_SIZE;
        if self.pager.content_length % PAGE_SIZE != 0 {
            num_pages += 1;
        }
        if page_num >= num_pages {
            return Ok(None);
        }
        let bytes_to_read = if page_num == num_pages - 1 && self.pager.content_length % PAGE_SIZE
            != 0 {
            self.pager.content_length % PAGE_SIZE
        } else {
            PAGE_SIZE
        };
        Ok(Some(((page_num * PAGE_SIZE) as u64, bytes_to_read)))
    }

    /// Installs the bytes read from the file for page `page_num`,
    /// zero-filling the rest of the page.
    pub fn install_page(&mut self, page_num: usize, data: &[u8]) -> (r: Result<(), DbError>)
        requires
            old(self).wf(),
        ensures
            final(self).wf(),
            r is Ok <==> (page_num < TABLE_MAX_PAGES && data@.len() <= PAGE_SIZE),
            page_num >= TABLE_MAX_PAGES ==> r == Err::<(), DbError>(DbError::OutOfBounds),
            page_num < TABLE_MAX_PAGES && data@.len() > PAGE_SIZE ==> r == Err::<(), DbError>(
                DbError::InvalidFlushSize,
            ),
            r is Err ==> *final(self) == *old(self),
            r is Ok ==> {
                &&& final(self).pager.resident(page_num as int)
                &&& final(self).pager.page_seq(page_num as int) == pad_trunc(
                    data@,
                    PAGE_SIZE as int,
                )
                &&& (forall|i: int|
                    0 <= i < TABLE_MAX_PAGES && i != page_num
                        ==> final(self).pager.pages@[i] == old(self).pager.pages@[i])
                &&& final(self).pager.content_length == old(self).pager.content_length
                &&& final(self).num_rows == old(self).num_rows
            },
    {
        if page_num >= TABLE_MAX_PAGES {
            return Err(DbError::OutOfBounds);
        }
        if data.len() > PAGE_SIZE {
            return Err(DbError::InvalidFlushSize);
        }
        let page = fixed_width(data, PAGE_SIZE);
        self.pager.pages.set(page_num, Some(page));
        Ok(())
    }

    /// Makes page `page_num` resident.  A page beyond the written
    /// region materializes as zeros; one inside it must have been
    /// installed from the file first.
    pub fn get_page(&mut self, page_num: usize) -> (r: Result<(), DbError>)
        requires
            old(self).wf(),
            page_num < TABLE_MAX_PAGES ==> old(self).page_ready(page_num as int),
        ensures
            final(self).wf(),
            r is Ok <==> page_num < TABLE_MAX_PAGES,
            r is Err ==> r == Err::<(), DbError>(DbError::OutOfBounds) && *final(self) == *old(
                self,
            ),
            r is Ok ==> {
                &&& final(self).pager.resident(page_num as int)
                &&& final(self).pager.page_seq(page_num as int) == old(self).page_base(
                    page_num as int,
                )
                &&& (forall|i: int|
                    0 <= i < TABLE_MAX_PAGES && i != page_num
                        ==> final(self).pager.pages@[i] == old(self).pager.pages@[i])
                &&& final(self).pager.content_length == old(self).pager.content_length
                &&& final(self).num_rows == old(self).num_rows
            },
    {
        if page_num >= TABLE_MAX_PAGES {
            return Err(DbError::OutOfBounds);
        }
        if self.pager.pages[page_num].is_none() {
            let page = vec![0u8; PAGE_SIZE];
            proof {
                assert(page@ =~= zero_bytes(PAGE_SIZE as int));
            }
            self.pager.pages.set(page_num, Some(page));
        }
        Ok(())
    }

    /// Computes the writes that closing performs: every resident page
    /// within the written region, in ascending page order, full pages
    /// at full size and the trailing partial page at the remainder.
    /// The caller performs them in order and stops at the first
    /// failure; a page that was never materialized needs no write.
    pub fn db_close(&self) -> (ops: Vec<FlushOp>)
        requires
            self.wf(),
        ensures
            forall|x: int|
                0 <= x < ops@.len() ==> {
                    let op = #[trigger] ops@[x];
                    &&& 0 <= op.page_num < TABLE_MAX_PAGES
                    &&& self.flushable(op.page_num as int)
                    &&& op.offset == op.page_num * PAGE_SIZE
                    &&& op.bytes@ == self.pager.page_seq(op.page_num as int).subrange(
                        0,
                        self.flush_size(op.page_num as int),
                    )
                },
            forall|x: int, y: int|
                0 <= x < y < ops@.len() ==> ops@[x].page_num < ops@[y].page_num,
            forall|pn: int|
                0 <= pn < TABLE_MAX_PAGES ==> (self.flushable(pn) <==> exists|x: int|
                    0 <= x < ops@.len() && (#[trigger] ops@[x]).page_num == pn),
    {
        let cl = self.pager.content_length;
        let num_full = cl / PAGE_SIZE;
        let remainder = cl % PAGE_SIZE;
        let mut ops: Vec<FlushOp> = Vec::new();
        let mut i: usize = 0;
        while i < TABLE_MAX_PAGES
            invariant
                self.wf(),
                num_full == self.pager.content_length as int / PAGE_SIZE as int,
                remainder == self.pager.content_length as int % PAGE_SIZE as int,
                i <= TABLE_MAX_PAGES,
                forall|x: int|
                    0 <= x < ops@.len() ==> {
                        let op = #[trigger] ops@[x];
                        &&& 0 <= op.page_num < i
                        &&& self.flushable(op.page_num as int)
                        &&& op.offset == op.page_num * PAGE_SIZE
                        &&& op.bytes@ == self.pager.page_seq(op.page_num as int).subrange(
                            0,
                            self.flush_size(op.page_num as int),
                        )
                    },
                forall|x: int, y: int|
                    0 <= x < y < ops@.len() ==> ops@[x].page_num < ops@[y].page_num,
                forall|pn: int|
                    0 <= pn < i ==> (self.flushable(pn) <==> exists|x: int|
                        0 <= x < ops@.len() && (#[trigger] ops@[x]).page_num == pn),
            decreases TABLE_MAX_PAGES - i,
        {
            let ghost ops0 = ops@;
            if self.pager.pages[i].is_some() {
                if i < num_full {
                    match self.pager.flush(i, PAGE_SIZE) {
                        Ok(op) => {
                            ops.push(op);
                        },
                        Err(_) => {},
                    }
                } else if i == num_full && remainder != 0 {
                    match self.pager.flush(i, remainder) {
                        Ok(op) => {
                            ops.push(op);
                        },
                        Err(_) => {},
                    }
                }
            }
            proof {
                assert(forall|x: int| 0 <= x < ops0.len() ==> ops@[x] == ops0[x]);
                assert forall|pn: int|
                    0 <= pn < i + 1 implies (self.flushable(pn) <==> exists|x: int|
                    0 <= x < ops@.len() && (#[trigger] ops@[x]).page_num == pn) by {
                    if pn < i {
                        if self.flushable(pn) {
                            let x = choose|x: int|
                                0 <= x < ops0.len() && (#[trigger] ops0[x]).page_num == pn;
                            assert(ops@[x].page_num == pn);
                        }
                    } else {
                        if self.flushable(pn) {
                            assert(ops@.len() == ops0.len() + 1);
                            assert(ops@[ops@.len() - 1].page_num == pn);
                        }
                    }
                }
            }
            i += 1;
        }
        ops
    }

    /// Whether closing must write page `pn`: it is resident and lies
    /// within the bytes written so far.
    pub open spec fn flushable(self, pn: int) -> bool {
        let full = self.pager.content_length as int / (PAGE_SIZE as int);
        &&& self.pager.resident(pn)
        &&& (pn < full || (pn == full && self.pager.content_length as int % (PAGE_SIZE as int)
            != 0))
    }

    /// The number of bytes closing writes for page `pn`.
    pub open spec fn flush_size(self, pn: int) -> int {
        if pn < self.pager.content_length as int / (PAGE_SIZE as int) {
            PAGE_SIZE as int
        } else {
            self.pager.content_length as int % (PAGE_SIZE as int)
        }
    }
}

/// A file after one write: `bytes` placed at `off`, the file extended
/// with zeros first if the write starts past its end.
pub open spec fn apply_write(file: Seq<u8>, off: int, bytes: Seq<u8>) -> Seq<u8> {
    let n = if file.len() >= off + bytes.len() {
        file.len() as int
    } else {
        off + bytes.len()
    };
    Seq::new(
        n as nat,
        |j: int|
            if off <= j < off + bytes.len() {
                bytes[j - off]
            } else if j < file.len() {
                file[j]
            } else {
                0u8
            },
    )
}

/// A file after a list of writes, applied first to last.
pub open spec fn apply_writes(file: Seq<u8>, ops: Seq<FlushOp>) -> Seq<u8>
    decreases ops.len(),
{
    if ops.len() == 0 {
        file
    } else {
        apply_write(
            apply_writes(file, ops.drop_last()),
            ops.last().offset as int,
            ops.last().bytes@,
        )
    }
}

/// Applying writes never shortens the file, and the file ends up long
/// enough for every write it received.
proof fn lemma_apply_writes_len(file: Seq<u8>, ops: Seq<FlushOp>)
    ensures
        apply_writes(file, ops).len() >= file.len(),
        forall|x: int|
            0 <= x < ops.len() ==> apply_writes(file, ops).len() >= (#[trigger] ops[x]).offset
                + ops[x].bytes@.len(),
    decreases ops.len(),
{
    if ops.len() > 0 {
        lemma_apply_writes_len(file, ops.drop_last());
        assert(forall|x: int| 0 <= x < ops.len() - 1 ==> ops.drop_last()[x] == ops[x]);
    }
}

/// Law (closing writes land intact): when the writes of a list touch
/// pairwise disjoint, left-to-right ranges — as the ascending pages of
/// a close list do — the written file holds each write's bytes at its
/// offset, unclobbered by the others.
pub proof fn lemma_apply_writes_disjoint(file: Seq<u8>, ops: Seq<FlushOp>, x: int)
    requires
        forall|a: int, b: int|
            0 <= a < b < ops.len() ==> (#[trigger] ops[a]).offset + ops[a].bytes@.len() <= (
            #[trigger] ops[b]).offset,
        0 <= x < ops.len(),
    ensures
        apply_writes(file, ops).subrange(
            ops[x].offset as int,
            ops[x].offset + ops[x].bytes@.len(),
        ) == ops[x].bytes@,
    decreases ops.len(),
{
    let out = apply_writes(file, ops);
    lemma_apply_writes_len(file, ops);
    if x == ops.len() - 1 {
        assert(out.subrange(ops[x].offset as int, ops[x].offset + ops[x].bytes@.len())
            =~= ops[x].bytes@);
    } else {
        let inner = apply_writes(file, ops.drop_last());
        assert(forall|a: int| 0 <= a < ops.len() - 1 ==> ops.drop_last()[a] == ops[a]);
        lemma_apply_writes_disjoint(file, ops.drop_last(), x);
        lemma_apply_writes_len(file, ops.drop_last());
        // the last write begins at or after this one's end
        assert(ops[x].offset + ops[x].bytes@.len() <= ops[ops.len() - 1].offset);
        assert(out.subrange(ops[x].offset as int, ops[x].offset + ops[x].bytes@.len())
            =~= inner.subrange(ops[x].offset as int, ops[x].offset + ops[x].bytes@.len()));
    }
}

/// The write ranges of a close list are pairwise disjoint and ordered:
/// each op covers at most one page and the page numbers ascend.
pub proof fn lemma_close_ops_disjoint(t: Table, ops: Seq<FlushOp>)
    requires
        forall|x: int|
            0 <= x < ops.len() ==> {
                let op = #[trigger] ops[x];
                &&& op.offset == op.page_num * PAGE_SIZE
                &&& op.bytes@.len() <= PAGE_SIZE
            },
        forall|x: int, y: int| 0 <= x < y < ops.len() ==> ops[x].page_num < ops[y].page_num,
    ensures
        forall|a: int, b: int|
            0 <= a < b < ops.len() ==> (#[trigger] ops[a]).offset + ops[a].bytes@.len() <= (
            #[trigger] ops[b]).offset,
{
    assert forall|a: int, b: int|
        0 <= a < b < ops.len() implies (#[trigger] ops[a]).offset + ops[a].bytes@.len() <= (
    #[trigger] ops[b]).offset by {
        assert(ops[a].page_num < ops[b].page_num);
        assert((ops[a].page_num + 1) * (PAGE_SIZE as int) <= ops[b].page_num * (
        PAGE_SIZE as int)) by (nonlinear_arith)
            requires ops[a].page_num < ops[b].page_num;
    }
}

/// Law (persistence round trip, slot by slot): take a row whose slot
/// lies within the written region, on a resident page.  Closing writes
/// that page's flush-sized prefix; a table reopened over the written
/// file installs that page from exactly those bytes, zero-padded to a
/// full page.  The reinstalled page then holds the row's slot
/// byte-for-byte as the old page did.
pub proof fn lemma_close_reopen_row(t: Table, t2: Table, id: int, data: Seq<u8>)
    requires
        t.wf(),
        t2.wf(),
        0 <= id < TABLE_MAX_ROWS,
        spec_page_num(id) * PAGE_SIZE + spec_byte_offset(id) + ROW_SIZE
            <= t.pager.content_length,
        t.pager.resident(spec_page_num(id)),
        data == t.pager.page_seq(spec_page_num(id)).subrange(
            0,
            t.flush_size(spec_page_num(id)),
        ),
        t2.pager.resident(spec_page_num(id)),
        t2.pager.page_seq(spec_page_num(id)) == pad_trunc(data, PAGE_SIZE as int),
    ensures
        t2.pager.page_seq(spec_page_num(id)).subrange(
            spec_byte_offset(id),
            spec_byte_offset(id) + ROW_SIZE as int,
        ) == t.pager.page_seq(spec_page_num(id)).subrange(
            spec_byte_offset(id),
            spec_byte_offset(id) + ROW_SIZE as int,
        ),
        t.flushable(spec_page_num(id)),
{
    let pn = spec_page_num(id);
    let off = spec_byte_offset(id);
    lemma_slot_in_flush(t, id);
    assert(data.len() == t.flush_size(pn));
    assert forall|j: int| off <= j < off + ROW_SIZE implies t2.pager.page_seq(pn)[j]
        == t.pager.page_seq(pn)[j] by {
        assert(j < data.len());
        assert(pad_trunc(data, PAGE_SIZE as int)[j] == data[j]);
        assert(data[j] == t.pager.page_seq(pn)[j]);
    }
    assert(t2.pager.page_seq(pn).subrange(off, off + ROW_SIZE as int) =~= t.pager.page_seq(
        pn,
    ).subrange(off, off + ROW_SIZE as int));
}

/// Law (closing then reopening preserves every inserted row): take a
/// row slot within the written region, on a resident page of `t`.
/// Let `ops` be what `db_close` computed, `file1` the backing file
/// after the caller performed those writes in order, and `t2` a table
/// reopened over `file1` whose slot page was installed from the bytes
/// `page_read_plan` asked for.  Then `t2`'s page holds the row's slot
/// byte-for-byte as `t`'s did.
pub proof fn lemma_close_reopen_preserves_row(
    t: Table,
    ops: Seq<FlushOp>,
    file0: Seq<u8>,
    file1: Seq<u8>,
    t2: Table,
    id: int,
)
    requires
        t.wf(),
        t2.wf(),
        forall|x: int|
            0 <= x < ops.len() ==> {
                let op = #[trigger] ops[x];
                &&& 0 <= op.page_num < TABLE_MAX_PAGES
                &&& t.flushable(op.page_num as int)
                &&& op.offset == op.page_num * PAGE_SIZE
                &&& op.bytes@ == t.pager.page_seq(op.page_num as int).subrange(
                    0,
                    t.flush_size(op.page_num as int),
                )
            },
        forall|x: int, y: int| 0 <= x < y < ops.len() ==> ops[x].page_num < ops[y].page_num,
        forall|pn: int|
            0 <= pn < TABLE_MAX_PAGES ==> (t.flushable(pn) <==> exists|x: int|
                0 <= x < ops.len() && (#[trigger] ops[x]).page_num == pn),
        file1 == apply_writes(file0, ops),
        0 <= id < TABLE_MAX_ROWS,
        spec_page_num(id) * PAGE_SIZE + spec_byte_offset(id) + ROW_SIZE
            <= t.pager.content_length,
        t.pager.resident(spec_page_num(id)),
        t2.pager.resident(spec_page_num(id)),
        t2.pager.page_seq(spec_page_num(id)) == pad_trunc(
            file1.subrange(
                spec_page_num(id) * PAGE_SIZE,
                spec_page_num(id) * PAGE_SIZE + read_len_for(
                    file1.len() as int,
                    spec_page_num(id),
                ),
            ),
            PAGE_SIZE as int,
        ),
    ensures
        t2.pager.page_seq(spec_page_num(id)).subrange(
            spec_byte_offset(id),
            spec_byte_offset(id) + ROW_SIZE as int,
        ) == t.pager.page_seq(spec_page_num(id)).subrange(
            spec_byte_offset(id),
            spec_byte_offset(id) + ROW_SIZE as int,
        ),
{
    let pn = spec_page_num(id);
    let off = spec_byte_offset(id);
    lemma_slot_in_flush(t, id);
    let fs = t.flush_size(pn);
    // the close list holds a write for this page, and it lands intact
    let x = choose|x: int| 0 <= x < ops.len() && (#[trigger] ops[x]).page_num == pn;
    assert(ops[x].bytes@ == t.pager.page_seq(pn).subrange(0, fs));
    lemma_close_ops_disjoint(t, ops);
    lemma_apply_writes_disjoint(file0, ops, x);
    lemma_apply_writes_len(file0, ops);
    assert(file1.subrange(pn * PAGE_SIZE, pn * PAGE_SIZE + fs) =~= ops[x].bytes@) by {
        assert(file1.subrange(
            ops[x].offset as int,
            ops[x].offset + ops[x].bytes@.len(),
        ) == ops[x].bytes@);
    }
    // the reopening read covers all the flushed bytes of the page
    let cl1 = file1.len() as int;
    let rl = read_len_for(cl1, pn);
    let q = cl1 / (PAGE_SIZE as int);
    let r = cl1 % (PAGE_SIZE as int);
    vstd::arithmetic::div_mod::lemma_fundamental_div_mod(cl1, PAGE_SIZE as int);
    assert(0 <= r < 4096) by (nonlinear_arith)
        requires r == cl1 % 4096, cl1 >= 0;
    assert(cl1 >= pn * PAGE_SIZE + fs);
    assert(pn <= q) by (nonlinear_arith)
        requires
            pn * 4096 + fs <= cl1,
            cl1 == 4096 * q + r,
            0 <= r < 4096,
            0 < fs,
            0 <= pn;
    assert(fs <= rl && pn * PAGE_SIZE + rl <= cl1) by {
        if pn == q {
            assert(pn * 4096 == 4096 * q) by (nonlinear_arith)
                requires pn == q;
            assert(r >= fs);
            assert(pages_on_file(cl1) == q + 1);
            assert(rl == r);
        } else {
            assert(pn * 4096 + 4096 <= 4096 * q) by (nonlinear_arith)
                requires pn < q;
            assert(pages_on_file(cl1) - 1 == q || (pages_on_file(cl1) - 1 == q - 1 && r == 0));
            assert(rl == PAGE_SIZE);
        }
    }
    let data = file1.subrange(pn * PAGE_SIZE, pn * PAGE_SIZE + rl);
    assert forall|j: int|
        off <= j < off + ROW_SIZE implies t2.pager.page_seq(pn)[j] == t.pager.page_seq(
        pn,
    )[j] by {
        assert(j < fs <= rl == data.len());
        assert(pad_trunc(data, PAGE_SIZE as int)[j] == data[j]);
        assert(data[j] == file1[pn * PAGE_SIZE + j]);
        assert(file1[pn * PAGE_SIZE + j] == ops[x].bytes@[j]) by {
            assert(file1.subrange(pn * PAGE_SIZE, pn * PAGE_SIZE + fs)[j] == file1[pn
                * PAGE_SIZE + j]);
        }
        assert(ops[x].bytes@[j] == t.pager.page_seq(pn)[j]);
    }
    assert(t2.pager.page_seq(pn).subrange(off, off + ROW_SIZE as int) =~= t.pager.page_seq(
        pn,
    ).subrange(off, off + ROW_SIZE as int));
}

/// A row slot that lies within the written region, on a resident page,
/// sits wholly inside the bytes that closing writes for that page.
pub proof fn lemma_slot_in_flush(t: Table, id: int)
    requires
        t.wf(),
        0 <= id < TABLE_MAX_ROWS,
        spec_page_num(id) * PAGE_SIZE + spec_byte_offset(id) + ROW_SIZE
            <= t.pager.content_length,
        t.pager.resident(spec_page_num(id)),
    ensures
        t.flushable(spec_page_num(id)),
        0 <= spec_byte_offset(id),
        spec_byte_offset(id) + ROW_SIZE <= t.flush_size(spec_page_num(id)),
        0 <= t.flush_size(spec_page_num(id)) <= PAGE_SIZE,
        0 <= spec_page_num(id) < TABLE_MAX_PAGES,
        t.pager.page_seq(spec_page_num(id)).len() == PAGE_SIZE,
{
    let pn = spec_page_num(id);
    let off = spec_byte_offset(id);
    let cl = t.pager.content_length as int;
    let full = cl / (PAGE_SIZE as int);
    let rem = cl % (PAGE_SIZE as int);
    assert(4096usize / 295usize == 13usize) by (bit_vector);
    assert(ROWS_PER_PAGE == 13 && TABLE_MAX_ROWS == 1300);
    vstd::arithmetic::div_mod::lemma_fundamental_div_mod(cl, PAGE_SIZE as int);
    assert(0 <= rem < 4096) by (nonlinear_arith)
        requires rem == cl % 4096, cl >= 0;
    assert(0 <= pn < 100 && 0 <= off <= 3540) by (nonlinear_arith)
        requires pn == id / 13, off == (id % 13) * 295, 0 <= id < 1300;
    assert(pn <= full) by (nonlinear_arith)
        requires
            pn * 4096 + off + 295 <= cl,
            cl == 4096 * full + rem,
            0 <= rem < 4096,
            0 <= off,
            0 <= pn;
    assert(off + ROW_SIZE <= t.flush_size(pn)) by {
        if pn < full {
        } else {
            assert(pn * 4096 == full * 4096) by (nonlinear_arith)
                requires pn == full;
            assert(off + 295 <= rem);
        }
    }
    assert(pn < full || (pn == full && rem != 0)) by {
        if pn == full {
            assert(off + (ROW_SIZE as int) <= rem);
        }
    }
}

/// The physical slot of a row id: its byte offset within the page and
/// its page number, in that order.
pub fn calc_offset(id: i64) -> (r: (usize, usize))
    requires
        0 <= id < TABLE_MAX_ROWS,
    ensures
        r.1 == spec_page_num(id as int),
        r.0 == spec_byte_offset(id as int),
        r.1 < TABLE_MAX_PAGES,
        r.0 + ROW_SIZE <= PAGE_SIZE,
{
    proof {
        assert(4096usize / 295usize == 13usize) by (bit_vector);
        assert(ROWS_PER_PAGE == 13 && TABLE_MAX_ROWS == 1300 && ROW_SIZE == 295);
        let idi = id as int;
        assert(idi / 13 < 100) by (nonlinear_arith)
            requires 0 <= idi < 1300;
        assert(0 <= idi % 13 < 13) by (nonlinear_arith)
            requires 0 <= idi;
        assert((idi % 13) * 295 + 295 <= 4096) by (nonlinear_arith)
            requires 0 <= idi % 13 < 13;
    }
    let page_num: usize = (id as usize) / ROWS_PER_PAGE;
    let row_offset: usize = (id as usize) % ROWS_PER_PAGE;
    let byte_offset: usize = row_offset * ROW_SIZE;
    (byte_offset, page_num)
}

/// Inserts a row at its direct-addressed slot: the id, name and email
/// are encoded into the slot's page, then the content length and the
/// row count are bumped.  Over-long names and emails are silently
/// truncated; an id outside the configured capacity is rejected, never
/// wrapped.
pub fn insert_row(table: &mut Table, id: i64, name: &[u8], email: &[u8]) -> (r: Result<
    (),
    DbError,
>)
    requires
        old(table).wf(),
        0 <= id < TABLE_MAX_ROWS ==> old(table).page_ready(spec_page_num(id as int)),
    ensures
        final(table).wf(),
        r is Ok <==> 0 <= id < TABLE_MAX_ROWS,
        r is Err ==> r == Err::<(), DbError>(DbError::OutOfBounds) && *final(table) == *old(table),
        r is Ok ==> {
            let pn = spec_page_num(id as int);
            let off = spec_byte_offset(id as int);
            &&& final(table).pager.resident(pn)
            &&& final(table).pager.page_seq(pn).len() == PAGE_SIZE
            &&& final(table).pager.page_seq(pn).subrange(off, off + ROW_SIZE as int)
                == spec_record_bytes(id, name@, email@)
            &&& (forall|j: int|
                0 <= j < PAGE_SIZE && !(off <= j < off + ROW_SIZE) ==> final(table).pager.page_seq(
                    pn,
                )[j] == old(table).page_base(pn)[j])
            &&& (forall|i: int|
                0 <= i < TABLE_MAX_PAGES && i != pn ==> final(table).pager.pages@[i] == old(
                    table,
                ).pager.pages@[i])
            &&& final(table).pager.content_length == (if old(table).pager.content_length >= pn
                * PAGE_SIZE + off + ROW_SIZE {
                old(table).pager.content_length as int
            } else {
                pn * PAGE_SIZE + off + ROW_SIZE
            })
            &&& final(table).num_rows == (if old(table).num_rows >= id + 1 {
                old(table).num_rows as int
            } else {
                id + 1
            })
        },
{
    if id < 0 {
        return Err(DbError::OutOfBounds);
    }
    if id >= TABLE_MAX_ROWS as i64 {
        return Err(DbError::OutOfBounds);
    }
    let (byte_offset, page_num) = calc_offset(id);
    match table.get_page(page_num) {
        Ok(()) => {},
        Err(e) => {
            return Err(e);
        },
    }
    let slot = table.pager.pages.remove(page_num);
    let mut buf = match slot {
        Some(b) => b,
        None => {
            return Err(DbError::OutOfBounds);
        },
    };
    let row = Row { id, name: to_fixed_32_truncate(name), email: to_fixed_255_truncate(email) };
    encode_row(&mut buf, byte_offset, &row);
    let ghost newpage = buf@;
    table.pager.pages.insert(page_num, Some(buf));
    proof {
        assert(table.pager.pages@ =~= old(table).pager.pages@.update(
            page_num as int,
            table.pager.pages@[page_num as int],
        ));
    }
    let end_of_row = page_num * PAGE_SIZE + byte_offset + ROW_SIZE;
    if table.pager.content_length < end_of_row {
        table.pager.content_length = end_of_row;
    }
    let next = (id as usize) + 1;
    if table.num_rows < next {
        table.num_rows = next;
    }
    Ok(())
}

/// Reads the row stored at `id`'s slot.  An id outside the configured
/// capacity is out of bounds; one at or past the row count is absent;
/// otherwise the slot's bytes decode to the returned row.
pub fn fetch_row(table: &mut Table, id: i64) -> (r: Result<Row, DbError>)
    requires
        old(table).wf(),
        0 <= id < TABLE_MAX_ROWS ==> old(table).page_ready(spec_page_num(id as int)),
    ensures
        final(table).wf(),
        final(table).num_rows == old(table).num_rows,
        final(table).pager.content_length == old(table).pager.content_length,
        r is Ok <==> (0 <= id < TABLE_MAX_ROWS && id < old(table).num_rows),
        (id < 0 || id >= TABLE_MAX_ROWS) ==> r == Err::<Row, DbError>(DbError::OutOfBounds),
        (0 <= id < TABLE_MAX_ROWS && id >= old(table).num_rows) ==> r == Err::<Row, DbError>(
            DbError::NotFound,
        ),
        r matches Ok(row) ==> {
            let pn = spec_page_num(id as int);
            let off = spec_byte_offset(id as int);
            let page = old(table).page_base(pn);
            &&& row.wf()
            &&& row.id == vstd::bytes::spec_u64_from_le_bytes(
                page.subrange(off, off + ID_SIZE as int),
            ) as i64
            &&& row.name@ == page.subrange(
                off + ID_SIZE as int,
                off + ID_SIZE as int + USERNAME_SIZE as int,
            )
            &&& row.email@ == page.subrange(
                off + ID_SIZE as int + USERNAME_SIZE as int,
                off + ROW_SIZE as int,
            )
        },
{
    if id < 0 {
        return Err(DbError::OutOfBounds);
    }
    if id >= TABLE_MAX_ROWS as i64 {
        return Err(DbError::OutOfBounds);
    }
    if (id as usize) >= table.num_rows {
        return Err(DbError::NotFound);
    }
    let (byte_offset, page_num) = calc_offset(id);
    match table.get_page(page_num) {
        Ok(()) => {},
        Err(e) => {
            return Err(e);
        },
    }
    match &table.pager.pages[page_num] {
        Some(p) => {
            match decode_row(p, byte_offset) {
                Ok(row) => Ok(row),
                Err(e) => Err(e),
            }
        },
        None => Err(DbError::OutOfBounds),
    }
}

} // verus!
