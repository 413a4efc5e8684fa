use rowstore::{DbError, Row, decode_row, encode_row, slice_to_32, slice_to_255,
    to_fixed_32_truncate, to_fixed_255_truncate};

const ROW_SIZE: usize = 8 + 32 + 255;

fn padded(s: &[u8], n: usize) -> Vec<u8> {
    let mut v = s.to_vec();
    v.truncate(n);
    while v.len() < n {
        v.push(0);
    }
    v
}

#[test]
fn to_fixed_32_truncate_pads_short_input() {
    let out = to_fixed_32_truncate(b"alice");
    assert_eq!(out.len(), 32);
    assert_eq!(&out[..5], b"alice");
    assert!(out[5..].iter().all(|&b| b == 0));
}

#[test]
fn to_fixed_32_truncate_cuts_long_input() {
    let long = [b'x'; 50];
    let out = to_fixed_32_truncate(&long);
    assert_eq!(out, vec![b'x'; 32]);
}

#[test]
fn to_fixed_255_truncate_exact_width_is_kept() {
    let exact = [b'e'; 255];
    let out = to_fixed_255_truncate(&exact);
    assert_eq!(out, exact.to_vec());
}

#[test]
fn encode_decode_round_trip_reproduces_row() {
    let row = Row {
        id: -42,
        name: to_fixed_32_truncate(b"alice"),
        email: to_fixed_255_truncate(b"alice@example.com"),
    };
    let mut page = vec![0u8; 4096];
    encode_row(&mut page, 295, &row);
    let back = decode_row(&page, 295).unwrap();
    assert_eq!(back.id, -42);
    assert_eq!(back.name, padded(b"alice", 32));
    assert_eq!(back.email, padded(b"alice@example.com", 255));
}

#[test]
fn encode_truncates_overlong_fields() {
    let long_name = [b'n'; 40];
    let long_email = [b'e'; 300];
    let row = Row {
        id: 7,
        name: to_fixed_32_truncate(&long_name),
        email: to_fixed_255_truncate(&long_email),
    };
    let mut page = vec![0u8; 4096];
    encode_row(&mut page, 0, &row);
    let back = decode_row(&page, 0).unwrap();
    assert_eq!(back.id, 7);
    assert_eq!(back.name, vec![b'n'; 32]);
    assert_eq!(back.email, vec![b'e'; 255]);
}

#[test]
fn decode_short_buffer_is_decode_error() {
    let page = vec![0u8; ROW_SIZE - 1];
    assert_eq!(decode_row(&page, 0).unwrap_err(), DbError::DecodeError);
    let page2 = vec![0u8; 4096];
    assert_eq!(decode_row(&page2, 4096 - ROW_SIZE + 1).unwrap_err(), DbError::DecodeError);
    assert!(decode_row(&page2, 4096 - ROW_SIZE).is_ok());
}

#[test]
fn slice_width_checks_reject_wrong_lengths() {
    assert_eq!(slice_to_32(&[0u8; 31]).unwrap_err(), DbError::DecodeError);
    assert_eq!(slice_to_32(&[0u8; 33]).unwrap_err(), DbError::DecodeError);
    assert_eq!(slice_to_32(&[7u8; 32]).unwrap(), vec![7u8; 32]);
    assert_eq!(slice_to_255(&[0u8; 254]).unwrap_err(), DbError::DecodeError);
    assert_eq!(slice_to_255(&[9u8; 255]).unwrap(), vec![9u8; 255]);
}

#[test]
fn encoded_id_is_little_endian() {
    let row = Row {
        id: 0x0102030405060708,
        name: to_fixed_32_truncate(b""),
        email: to_fixed_255_truncate(b""),
    };
    let mut page = vec![0u8; ROW_SIZE];
    encode_row(&mut page, 0, &row);
    assert_eq!(&page[..8], &[0x08, 0x07, 0x06, 0x05, 0x04, 0x03, 0x02, 0x01]);
}
