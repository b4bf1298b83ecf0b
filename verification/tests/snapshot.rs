//! Tests of the RDB snapshot decoder.

use respkv::database::{Database, Value};
use respkv::rdb::{read_length, read_rdb, read_rdb_string, Length};
use respkv::WireError;

fn v(s: &str) -> Vec<u8> {
    s.as_bytes().to_vec()
}

fn header() -> Vec<u8> {
    v("REDIS0003")
}

#[test]
fn length_prefix_four_encodings() {
    assert_eq!(read_length(&[0x0A], 0), Ok((Length::Normal(10), 1)));
    assert_eq!(read_length(&[0x3F], 0), Ok((Length::Normal(63), 1)));
    assert_eq!(read_length(&[0x41, 0x02], 0), Ok((Length::Normal(0x0102), 2)));
    assert_eq!(
        read_length(&[0x80, 0x78, 0x56, 0x34, 0x12], 0),
        Ok((Length::Normal(0x12345678), 5))
    );
    assert_eq!(read_length(&[0xC0], 0), Ok((Length::Special(0), 1)));
    assert_eq!(read_length(&[0xC2], 0), Ok((Length::Special(2), 1)));
    assert_eq!(read_length(&[], 0), Err(WireError::UnexpectedEof));
    assert_eq!(read_length(&[0x41], 0), Err(WireError::UnexpectedEof));
    assert_eq!(read_length(&[0x80, 1, 2], 0), Err(WireError::UnexpectedEof));
}

#[test]
fn string_after_special_length_is_raw_bytes() {
    // special code 0, 1, 2: the "string" is 1, 2 or 4 raw bytes
    assert_eq!(read_rdb_string(&[0xC0, 7], 0), Ok((vec![7], 2)));
    assert_eq!(read_rdb_string(&[0xC1, 7, 8], 0), Ok((vec![7, 8], 3)));
    assert_eq!(read_rdb_string(&[0xC2, 1, 2, 3, 4], 0), Ok((vec![1, 2, 3, 4], 5)));
    assert_eq!(read_rdb_string(&[0xC3, 1], 0), Err(WireError::InvalidData));
    assert_eq!(read_rdb_string(&[0x03, b'a', b'b', b'c'], 0), Ok((v("abc"), 4)));
    assert_eq!(read_rdb_string(&[0x05, b'a'], 0), Err(WireError::UnexpectedEof));
}

#[test]
fn snapshot_with_one_pair_loads() {
    let mut file = header();
    file.push(0xFE);
    file.push(0x00);  // select database 0
    file.push(0x00);  // value type: string
    file.push(5);
    file.extend_from_slice(b"hello");
    file.push(5);
    file.extend_from_slice(b"world");
    file.push(0xFF);
    let datasets = read_rdb(&file).unwrap();
    assert_eq!(datasets.len(), 1);
    match datasets[0].get_at(b"hello", 0) {
        Some(Value::String(data)) => assert_eq!(data, &v("world")),
        None => panic!("loaded key missing"),
    }
    let mut db = Database::new();
    db.swap_datasets(datasets);
    let request: Vec<Vec<u8>> = vec![v("GET"), v("hello")];
    let reply = respkv::command::execute_command(&mut db, &request, 0).unwrap();
    assert_eq!(reply, v("$5\r\nworld\r\n"));
}

#[test]
fn snapshot_expiry_opcodes() {
    let mut file = header();
    file.push(0xFC);  // expiry in milliseconds, u64 little-endian
    file.extend_from_slice(&[0xE8, 0x03, 0, 0, 0, 0, 0, 0]);  // 1000 ms
    file.push(0x00);
    file.push(1);
    file.push(b'a');
    file.push(1);
    file.push(b'1');
    file.push(0xFD);  // expiry in seconds, u32 little-endian
    file.extend_from_slice(&[2, 0, 0, 0]);  // 2 s = 2000 ms
    file.push(0x00);
    file.push(1);
    file.push(b'b');
    file.push(1);
    file.push(b'2');
    file.push(0xFF);
    let datasets = read_rdb(&file).unwrap();
    let d = &datasets[0];
    assert!(d.get_at(b"a", 999).is_some());
    assert!(d.get_at(b"a", 1000).is_none());
    assert!(d.get_at(b"b", 1999).is_some());
    assert!(d.get_at(b"b", 2000).is_none());
}

#[test]
fn snapshot_discards_aux_and_resize_hints() {
    let mut file = header();
    file.push(0xFA);
    file.push(3);
    file.extend_from_slice(b"ver");
    file.push(1);
    file.push(b'7');
    file.push(0xFB);
    file.push(4);
    file.push(0);
    file.push(0xFF);
    let datasets = read_rdb(&file).unwrap();
    assert_eq!(datasets[0].all_keys().len(), 0);
}

#[test]
fn snapshot_errors() {
    assert!(matches!(read_rdb(b"RED"), Err(WireError::UnexpectedEof)));
    assert!(matches!(read_rdb(b"RUDIS0003\xff"), Err(WireError::InvalidData)));
    assert!(matches!(read_rdb(b"REDIS0009\xff"), Err(WireError::InvalidData)));
    let mut no_eof = header();
    no_eof.push(0x00);
    no_eof.push(1);
    no_eof.push(b'k');
    no_eof.push(1);
    no_eof.push(b'v');
    assert!(matches!(read_rdb(&no_eof), Err(WireError::UnexpectedEof)));
    let mut bad_op = header();
    bad_op.push(0x42);
    assert!(matches!(read_rdb(&bad_op), Err(WireError::InvalidData)));
    let mut bad_db = header();
    bad_db.push(0xFE);
    bad_db.push(0x01);  // only database 0 is supported
    assert!(matches!(read_rdb(&bad_db), Err(WireError::InvalidData)));
    let mut bad_type = header();
    bad_type.push(0xFC);
    bad_type.extend_from_slice(&[0; 8]);
    bad_type.push(0x07);  // only string values are supported
    assert!(matches!(read_rdb(&bad_type), Err(WireError::InvalidData)));
}
