//! The row codec: a fixed-width record of id, name and email, written
//! and read at a byte offset inside a page buffer.
//!
//! The id takes a fixed little-endian width; the name and email are
//! truncated or zero-padded to their fixed capacities.  Truncation of
//! over-long input is silent by design.

use vstd::prelude::*;

use vstd::bytes::{spec_u64_from_le_bytes, spec_u64_to_le_bytes, u64_from_le_bytes, u64_to_le_bytes};
use vstd::bytes::lemma_auto_spec_u64_to_from_le_bytes;
use vstd::slice::{slice_index_get, slice_subrange, slice_to_vec};

use crate::errors::DbError;

verus! {

/// Fixed capacity of the name field in bytes.
pub const USERNAME_LEN: usize = 32;

/// Fixed capacity of the email field in bytes.
pub const EMAIL_LEN: usize = 255;

/// Width of the id on disk.
pub const ID_SIZE: usize = 8;

/// Width of the name field on disk.
pub const USERNAME_SIZE: usize = USERNAME_LEN;

/// Width of the email field on disk.
pub const EMAIL_SIZE: usize = EMAIL_LEN;

/// Byte offset of the id within a record.
pub const ID_OFFSET: usize = 0;

/// Byte offset of the name within a record.
pub const USERNAME_OFFSET: usize = ID_OFFSET + ID_SIZE;

/// Byte offset of the email within a record.
pub const EMAIL_OFFSET: usize = USERNAME_OFFSET + USERNAME_SIZE;

/// Total width of one record on disk.
pub const ROW_SIZE: usize = EMAIL_OFFSET + EMAIL_SIZE;

/// One stored tuple, with the name and email held at their fixed widths.
#[derive(Debug)]
pub struct Row {
    pub id: i64,
    pub name: Vec<u8>,
    pub email: Vec<u8>,
}

impl Row {
    /// A row as stored: both variable fields at their exact fixed widths.
    pub open spec fn wf(self) -> bool {
        self.name@.len() == USERNAME_SIZE && self.email@.len() == EMAIL_SIZE
    }
}

/// `n` zero bytes.
pub open spec fn zero_bytes(n: int) -> Seq<u8> {
    Seq::new(n as nat, |i: int| 0u8)
}

/// `s` truncated or zero-padded on the right to exactly `n` bytes.
pub open spec fn pad_trunc(s: Seq<u8>, n: int) -> Seq<u8> {
    if s.len() >= n {
        s.subrange(0, n)
    } else {
        s + zero_bytes(n - s.len())
    }
}

/// The on-disk image of a row: the little-endian id, then the name and
/// the email at their fixed widths.
pub open spec fn spec_row_bytes(r: Row) -> Seq<u8> {
    spec_u64_to_le_bytes(r.id as u64) + r.name@ + r.email@
}

/// The on-disk image of a record given its raw fields: the name and
/// email are truncated or zero-padded to their fixed widths first.
pub open spec fn spec_record_bytes(id: i64, name: Seq<u8>, email: Seq<u8>) -> Seq<u8> {
    spec_u64_to_le_bytes(id as u64) + pad_trunc(name, USERNAME_SIZE as int) + pad_trunc(
        email,
        EMAIL_SIZE as int,
    )
}

/// Truncates or zero-pads a byte string to exactly `n` bytes.
pub(crate) fn fixed_width(s: &[u8], n: usize) -> (out: Vec<u8>)
    ensures
        out@ == pad_trunc(s@, n as int),
        out@.len() == n,
{
    let take: usize = if s.len() < n {
        s.len()
    } else {
        n
    };
    let mut out: Vec<u8> = Vec::new();
    let mut i: usize = 0;
    while i < take
        invariant
            i <= take,
            take <= s@.len(),
            out@ == s@.subrange(0, i as int),
        decreases take - i,
    {
        out.push(*slice_index_get(s, i));
        proof {
            assert(out@ =~= s@.subrange(0, i + 1));
        }
        i += 1;
    }
    while out.len() < n
        invariant
            take == (if s@.len() < n {
                s@.len() as int
            } else {
                n as int
            }),
            take <= out@.len() <= n,
            out@ == s@.subrange(0, take as int) + zero_bytes(out@.len() - take),
        decreases n - out@.len(),
    {
        out.push(0u8);
        proof {
            assert(out@ =~= s@.subrange(0, take as int) + zero_bytes(out@.len() - take));
        }
    }
    proof {
        assert(out@ =~= pad_trunc(s@, n as int));
    }
    out
}

/// Truncates or zero-pads a name to its fixed 32-byte width.
pub fn to_fixed_32_truncate(s: &[u8]) -> (out: Vec<u8>)
    ensures
        out@ == pad_trunc(s@, USERNAME_SIZE as int),
        out@.len() == USERNAME_SIZE,
{
    fixed_width(s, USERNAME_LEN)
}

/// Truncates or zero-pads an email to its fixed 255-byte width.
pub fn to_fixed_255_truncate(s: &[u8]) -> (out: Vec<u8>)
    ensures
        out@ == pad_trunc(s@, EMAIL_SIZE as int),
        out@.len() == EMAIL_SIZE,
{
    fixed_width(s, EMAIL_LEN)
}

/// Checks that a byte string has the name field's exact width.
pub fn slice_to_32(b: &[u8]) -> (r: Result<Vec<u8>, DbError>)
    ensures
        r is Ok <==> b@.len() == USERNAME_SIZE,
        r is Err ==> r == Err::<Vec<u8>, DbError>(DbError::DecodeError),
        r matches Ok(v) ==> v@ == b@,
{
    if b.len() != USERNAME_LEN {
        return Err(DbError::DecodeError);
    }
    Ok(slice_to_vec(b))
}

/// Checks that a byte string has the email field's exact width.
pub fn slice_to_255(b: &[u8]) -> (r: Result<Vec<u8>, DbError>)
    ensures
        r is Ok <==> b@.len() == EMAIL_SIZE,
        r is Err ==> r == Err::<Vec<u8>, DbError>(DbError::DecodeError),
        r matches Ok(v) ==> v@ == b@,
{
    if b.len() != EMAIL_LEN {
        return Err(DbError::DecodeError);
    }
    Ok(slice_to_vec(b))
}

/// Copies `src` into `dst` starting at `offset`, leaving every other
/// byte of `dst` unchanged.
pub(crate) fn copy_into(dst: &mut Vec<u8>, offset: usize, src: &Vec<u8>)
    requires
        offset + src@.len() <= old(dst)@.len(),
    ensures
        final(dst)@.len() == old(dst)@.len(),
        forall|j: int|
            0 <= j < old(dst)@.len() && !(offset <= j < offset + src@.len()) ==> final(dst)@[j]
                == old(dst)@[j],
        final(dst)@.subrange(offset as int, offset + src@.len()) == src@,
{
    let dlen = dst.len();
    let mut i: usize = 0;
    while i < src.len()
        invariant
            i <= src@.len(),
            offset + src@.len() <= dlen,
            offset + src@.len() <= dst@.len(),
            dst@.len() == old(dst)@.len(),
            forall|j: int|
                0 <= j < dst@.len() && !(offset <= j < offset + i) ==> dst@[j] == old(dst)@[j],
            forall|j: int| 0 <= j < i ==> dst@[offset + j] == src@[j],
        decreases src@.len() - i,
    {
        dst.set(offset + i, src[i]);
        i += 1;
    }
    proof {
        assert(final(dst)@.subrange(offset as int, offset + src@.len()) =~= src@);
    }
}

/// Writes a row's fixed-width image at `offset` in a page buffer.
pub fn encode_row(page: &mut Vec<u8>, offset: usize, row: &Row)
    requires
        row.wf(),
        offset + ROW_SIZE <= old(page)@.len(),
    ensures
        final(page)@.len() == old(page)@.len(),
        forall|j: int|
            0 <= j < old(page)@.len() && !(offset <= j < offset + ROW_SIZE) ==> final(page)@[j]
                == old(page)@[j],
        final(page)@.subrange(offset as int, (offset + ROW_SIZE) as int) == spec_row_bytes(*row),
{
    let plen = page.len();
    proof {
        assert(offset + ROW_SIZE <= plen);
    }
    let idb = u64_to_le_bytes(#[verifier::truncate] (row.id as u64));
    proof {
        lemma_auto_spec_u64_to_from_le_bytes();
    }
    copy_into(page, offset, &idb);
    copy_into(page, offset + USERNAME_OFFSET, &row.name);
    copy_into(page, offset + EMAIL_OFFSET, &row.email);
    proof {
        assert(final(page)@.subrange(offset as int, (offset + ROW_SIZE) as int) =~= spec_row_bytes(
            *row,
        ));
    }
}

/// Reads the row image at `offset` in a page buffer.  A buffer too
/// short for a full record is a decode error, checked, never assumed.
pub fn decode_row(page: &Vec<u8>, offset: usize) -> (r: Result<Row, DbError>)
    ensures
        r is Ok <==> offset + ROW_SIZE <= page@.len(),
        r is Err ==> r == Err::<Row, DbError>(DbError::DecodeError),
        r matches Ok(row) ==> {
            &&& row.wf()
            &&& row.id == spec_u64_from_le_bytes(
                page@.subrange(offset as int, offset + ID_SIZE),
            ) as i64
            &&& row.name@ == page@.subrange(
                offset + USERNAME_OFFSET,
                offset + USERNAME_OFFSET + USERNAME_SIZE,
            )
            &&& row.email@ == page@.subrange(
                offset + EMAIL_OFFSET,
                offset + EMAIL_OFFSET + EMAIL_SIZE,
            )
        },
{
    if page.len() < ROW_SIZE || offset > page.len() - ROW_SIZE {
        return Err(DbError::DecodeError);
    }
    let idb = slice_subrange(page.as_slice(), offset, offset + ID_SIZE);
    let idv = u64_from_le_bytes(idb);
    let name = slice_to_vec(
        slice_subrange(
            page.as_slice(),
            offset + USERNAME_OFFSET,
            offset + USERNAME_OFFSET + USERNAME_SIZE,
        ),
    );
    let email = slice_to_vec(
        slice_subrange(
            page.as_slice(),
            offset + EMAIL_OFFSET,
            offset + EMAIL_OFFSET + EMAIL_SIZE,
        ),
    );
    Ok(Row { id: #[verifier::truncate] (idv as i64), name, email })
}

/// Law: decoding an encoded row reproduces the id exactly, and the name
/// and email fields equal the input truncated to capacity when it
/// exceeds capacity, and the zero-padded input otherwise.
pub proof fn lemma_codec_round_trip(id: i64, name: Seq<u8>, email: Seq<u8>)
    ensures
        ({
            let bytes = spec_u64_to_le_bytes(id as u64) + pad_trunc(name, USERNAME_SIZE as int)
                + pad_trunc(email, EMAIL_SIZE as int);
            &&& bytes.len() == ROW_SIZE
            &&& spec_u64_from_le_bytes(bytes.subrange(0, ID_SIZE as int)) as i64 == id
            &&& bytes.subrange(
                USERNAME_OFFSET as int,
                (USERNAME_OFFSET + USERNAME_SIZE) as int,
            ) == pad_trunc(name, USERNAME_SIZE as int)
            &&& bytes.subrange(EMAIL_OFFSET as int, (EMAIL_OFFSET + EMAIL_SIZE) as int)
                == pad_trunc(email, EMAIL_SIZE as int)
        }),
{
    lemma_auto_spec_u64_to_from_le_bytes();
    let bytes = spec_u64_to_le_bytes(id as u64) + pad_trunc(name, USERNAME_SIZE as int)
        + pad_trunc(email, EMAIL_SIZE as int);
    assert(pad_trunc(name, USERNAME_SIZE as int).len() == USERNAME_SIZE);
    assert(pad_trunc(email, EMAIL_SIZE as int).len() == EMAIL_SIZE);
    assert(bytes.subrange(0, ID_SIZE as int) =~= spec_u64_to_le_bytes(id as u64));
    assert(spec_u64_from_le_bytes(spec_u64_to_le_bytes(id as u64)) == id as u64);
    assert((id as u64) as i64 == id) by (bit_vector);
    assert(bytes.subrange(USERNAME_OFFSET as int, (USERNAME_OFFSET + USERNAME_SIZE) as int)
        =~= pad_trunc(name, USERNAME_SIZE as int));
    assert(bytes.subrange(EMAIL_OFFSET as int, (EMAIL_OFFSET + EMAIL_SIZE) as int) =~= pad_trunc(
        email,
        EMAIL_SIZE as int,
    ));
}

} // verus!
