use rowstore::{Cursor, DbError, Table, calc_offset, fetch_row, insert_row};

const ROW_SIZE: usize = 8 + 32 + 255;
const PAGE_SIZE: usize = 4096;
const ROWS_PER_PAGE: usize = PAGE_SIZE / ROW_SIZE;
const TABLE_MAX_ROWS: usize = ROWS_PER_PAGE * 100;

/// Performs the lazy load the table asks for, against a file held in
/// memory, as the shell does against a real file.
fn load_page(t: &mut Table, file: &[u8], page_num: usize) {
    if let Some((offset, len)) = t.page_read_plan(page_num).unwrap() {
        let start = offset as usize;
        t.install_page(page_num, &file[start..start + len]).unwrap();
    }
}

/// Applies the writes that closing computed, as the shell would.
fn apply_ops(file: &mut Vec<u8>, ops: &[rowstore::FlushOp]) {
    for op in ops {
        let start = op.offset as usize;
        let end = start + op.bytes.len();
        if file.len() < end {
            file.resize(end, 0);
        }
        file[start..end].copy_from_slice(&op.bytes);
    }
}

#[test]
fn open_infers_num_rows_from_file_length() {
    let t = Table::db_open(0);
    assert_eq!(t.num_rows, 0);
    let t2 = Table::db_open(2 * ROW_SIZE);
    assert_eq!(t2.num_rows, 2);
    // a trailing partial record is tolerated and ignored
    let t3 = Table::db_open(2 * ROW_SIZE + 10);
    assert_eq!(t3.num_rows, 2);
}

#[test]
fn insert_then_fetch_round_trip() {
    let mut t = Table::db_open(0);
    insert_row(&mut t, 1, b"alice", b"alice@example.com").unwrap();
    assert_eq!(t.num_rows, 2);
    let row = fetch_row(&mut t, 1).unwrap();
    assert_eq!(row.id, 1);
    assert_eq!(&row.name[..5], b"alice");
    assert!(row.name[5..].iter().all(|&b| b == 0));
    assert_eq!(&row.email[..17], b"alice@example.com");
}

#[test]
fn insert_rejects_out_of_bounds_id() {
    let mut t = Table::db_open(0);
    assert_eq!(insert_row(&mut t, -1, b"a", b"b").unwrap_err(), DbError::OutOfBounds);
    assert_eq!(
        insert_row(&mut t, TABLE_MAX_ROWS as i64, b"a", b"b").unwrap_err(),
        DbError::OutOfBounds
    );
    // the largest placeable id is fine
    insert_row(&mut t, TABLE_MAX_ROWS as i64 - 1, b"a", b"b").unwrap();
}

#[test]
fn fetch_past_num_rows_is_not_found() {
    let mut t = Table::db_open(0);
    insert_row(&mut t, 0, b"a", b"b").unwrap();
    assert_eq!(fetch_row(&mut t, 1).unwrap_err(), DbError::NotFound);
    assert_eq!(fetch_row(&mut t, -3).unwrap_err(), DbError::OutOfBounds);
    assert_eq!(fetch_row(&mut t, TABLE_MAX_ROWS as i64).unwrap_err(), DbError::OutOfBounds);
}

#[test]
fn calc_offset_exact_values() {
    assert_eq!(calc_offset(0), (0, 0));
    assert_eq!(calc_offset(1), (ROW_SIZE, 0));
    assert_eq!(calc_offset(ROWS_PER_PAGE as i64), (0, 1));
    assert_eq!(calc_offset(ROWS_PER_PAGE as i64 + 1), (ROW_SIZE, 1));
}

#[test]
fn close_flushes_partial_page_remainder() {
    let mut t = Table::db_open(0);
    insert_row(&mut t, 0, b"n", b"e").unwrap();
    let ops = t.db_close();
    assert_eq!(ops.len(), 1);
    assert_eq!(ops[0].page_num, 0);
    assert_eq!(ops[0].offset, 0);
    // content length is one row: the partial page flushes that remainder
    assert_eq!(ops[0].bytes.len(), ROW_SIZE);
}

#[test]
fn close_skips_pages_never_materialized() {
    // a table opened over two full pages of data, never read from
    let t = Table::db_open(2 * PAGE_SIZE);
    let ops = t.db_close();
    assert!(ops.is_empty());
}

#[test]
fn close_then_reopen_preserves_rows_byte_for_byte() {
    let mut t = Table::db_open(0);
    insert_row(&mut t, 0, b"alice", b"alice@example.com").unwrap();
    insert_row(&mut t, 1, b"bob", b"bob@example.org").unwrap();
    insert_row(&mut t, ROWS_PER_PAGE as i64, b"carol", b"carol@example.net").unwrap();
    let before: Vec<_> = [0, 1, ROWS_PER_PAGE as i64]
        .iter()
        .map(|&id| fetch_row(&mut t, id).unwrap())
        .collect();

    let ops = t.db_close();
    let mut file: Vec<u8> = Vec::new();
    apply_ops(&mut file, &ops);

    let mut t2 = Table::db_open(file.len());
    assert!(t2.num_rows >= ROWS_PER_PAGE + 1);
    load_page(&mut t2, &file, 0);
    load_page(&mut t2, &file, 1);
    for (i, &id) in [0, 1, ROWS_PER_PAGE as i64].iter().enumerate() {
        let row = fetch_row(&mut t2, id).unwrap();
        assert_eq!(row.id, before[i].id);
        assert_eq!(row.name, before[i].name);
        assert_eq!(row.email, before[i].email);
    }
}

#[test]
fn flush_reports_each_failure_kind() {
    let mut t = Table::db_open(0);
    insert_row(&mut t, 0, b"a", b"b").unwrap();
    // page out of bounds
    assert_eq!(t.pager.flush(100, 10).unwrap_err(), DbError::OutOfBounds);
    // page never materialized
    assert_eq!(t.pager.flush(5, 10).unwrap_err(), DbError::InvalidFlushSize);
    // size larger than a page
    assert_eq!(t.pager.flush(0, PAGE_SIZE + 1).unwrap_err(), DbError::InvalidFlushSize);
    // a valid flush hands back the requested prefix
    let op = t.pager.flush(0, 8).unwrap();
    assert_eq!(op.bytes.len(), 8);
    assert_eq!(op.offset, 0);
}

#[test]
fn install_page_rejects_bad_inputs() {
    let mut t = Table::db_open(PAGE_SIZE);
    assert_eq!(t.install_page(100, &[0u8; 4]).unwrap_err(), DbError::OutOfBounds);
    let big = vec![0u8; PAGE_SIZE + 1];
    assert_eq!(t.install_page(0, &big).unwrap_err(), DbError::InvalidFlushSize);
    t.install_page(0, &[9u8; 16]).unwrap();
    // installed data is zero-padded to a full page
    assert!(t.page_read_plan(0).unwrap().is_none());
}

#[test]
fn page_read_plan_asks_for_partial_page() {
    let t = Table::db_open(PAGE_SIZE + 300);
    assert_eq!(t.page_read_plan(0).unwrap(), Some((0, PAGE_SIZE)));
    assert_eq!(t.page_read_plan(1).unwrap(), Some((PAGE_SIZE as u64, 300)));
    assert_eq!(t.page_read_plan(2).unwrap(), None);
    assert_eq!(t.page_read_plan(100).unwrap_err(), DbError::OutOfBounds);
}

#[test]
fn cursor_walks_to_end_of_table() {
    let mut t = Table::db_open(0);
    insert_row(&mut t, 0, b"a", b"x").unwrap();
    insert_row(&mut t, 1, b"b", b"y").unwrap();
    let mut c = Cursor::new(&t);
    assert_eq!(c.row_num, 0);
    assert!(!c.end_of_table);
    assert_eq!(c.value(), 0);
    assert_eq!(c.byte_offset(), 0);
    c.advance(&t);
    assert_eq!(c.byte_offset(), ROW_SIZE);
    assert!(!c.end_of_table);
    c.advance(&t);
    assert!(c.end_of_table);
    let e = Cursor::table_end(&t);
    assert_eq!(e.row_num, 2);
    assert!(e.end_of_table);
}

#[test]
fn empty_table_cursor_starts_at_end() {
    let t = Table::db_open(0);
    let c = Cursor::new(&t);
    assert!(c.end_of_table);
}
