//! Byte-level tests of the RESP codec and the number formats.

use respkv::num::{format_i64, format_u64, parse_i64, parse_u64};
use respkv::reader::{read_bytes_at, read_u16_le_at, read_u32_le_at, read_u64_le_at, read_u8_at};
use respkv::resp::{
    read_array, read_line, read_string, read_string_array, read_value, write_array,
    write_bulk_string, write_bulk_string_opt, write_null_bulk_string, write_simple_string,
    RespValue,
};
use respkv::WireError;

fn v(s: &str) -> Vec<u8> {
    s.as_bytes().to_vec()
}

#[test]
fn format_and_parse_u64() {
    assert_eq!(format_u64(0), v("0"));
    assert_eq!(format_u64(7), v("7"));
    assert_eq!(format_u64(12345), v("12345"));
    assert_eq!(format_u64(u64::MAX), v("18446744073709551615"));
    assert_eq!(parse_u64(b"0"), Some(0));
    assert_eq!(parse_u64(b"+42"), Some(42));
    assert_eq!(parse_u64(b"0042"), Some(42));
    assert_eq!(parse_u64(b"18446744073709551615"), Some(u64::MAX));
    assert_eq!(parse_u64(b"18446744073709551616"), None);
    assert_eq!(parse_u64(b""), None);
    assert_eq!(parse_u64(b"+"), None);
    assert_eq!(parse_u64(b"12a"), None);
    assert_eq!(parse_u64(b"-1"), None);
}

#[test]
fn format_and_parse_i64() {
    assert_eq!(format_i64(0), v("0"));
    assert_eq!(format_i64(-1), v("-1"));
    assert_eq!(format_i64(i64::MIN), v("-9223372036854775808"));
    assert_eq!(format_i64(i64::MAX), v("9223372036854775807"));
    assert_eq!(parse_i64(b"-1"), Some(-1));
    assert_eq!(parse_i64(b"+5"), Some(5));
    assert_eq!(parse_i64(b"-9223372036854775808"), Some(i64::MIN));
    assert_eq!(parse_i64(b"-9223372036854775809"), None);
    assert_eq!(parse_i64(b"9223372036854775808"), None);
    assert_eq!(parse_i64(b"--1"), None);
}

#[test]
fn reader_primitives_little_endian() {
    let buf = [0x01u8, 0x02, 0x03, 0x04, 0x05, 0x06, 0x07, 0x08, 0xFF];
    assert_eq!(read_u8_at(&buf, 0), Ok((0x01, 1)));
    assert_eq!(read_u16_le_at(&buf, 0), Ok((0x0201, 2)));
    assert_eq!(read_u32_le_at(&buf, 0), Ok((0x04030201, 4)));
    assert_eq!(read_u64_le_at(&buf, 0), Ok((0x0807060504030201, 8)));
    let (bytes, p) = read_bytes_at(&buf, 1, 3).unwrap();
    assert_eq!(bytes, vec![0x02, 0x03, 0x04]);
    assert_eq!(p, 4);
    assert_eq!(read_u8_at(&buf, 9), Err(WireError::UnexpectedEof));
    assert_eq!(read_u64_le_at(&buf, 2), Err(WireError::UnexpectedEof));
}

#[test]
fn encode_simple_bulk_null_array() {
    let mut out: Vec<u8> = Vec::new();
    write_simple_string(&mut out, b"PONG");
    assert_eq!(out, v("+PONG\r\n"));
    let mut out: Vec<u8> = Vec::new();
    write_bulk_string(&mut out, b"hello");
    assert_eq!(out, v("$5\r\nhello\r\n"));
    let mut out: Vec<u8> = Vec::new();
    write_bulk_string(&mut out, b"");
    assert_eq!(out, v("$0\r\n\r\n"));
    let mut out: Vec<u8> = Vec::new();
    write_null_bulk_string(&mut out);
    assert_eq!(out, v("$-1\r\n"));
    let mut out: Vec<u8> = Vec::new();
    write_bulk_string_opt(&mut out, None);
    assert_eq!(out, v("$-1\r\n"));
    let mut out: Vec<u8> = Vec::new();
    let val = v("x");
    write_bulk_string_opt(&mut out, Some(&val));
    assert_eq!(out, v("$1\r\nx\r\n"));
    let mut out: Vec<u8> = Vec::new();
    write_array(&mut out, 2);
    assert_eq!(out, v("*2\r\n"));
    let mut out: Vec<u8> = Vec::new();
    write_array(&mut out, -1);
    assert_eq!(out, v("*-1\r\n"));
}

#[test]
fn decode_simple_string_round_trip() {
    let mut out: Vec<u8> = Vec::new();
    write_simple_string(&mut out, b"PONG");
    match read_value(&out, 0) {
        Ok((RespValue::String(s), p)) => {
            assert_eq!(s, v("PONG"));
            assert_eq!(p, out.len());
        },
        other => panic!("unexpected: {:?}", other.map(|x| x.1)),
    }
}

#[test]
fn decode_bulk_string_round_trip() {
    let mut out: Vec<u8> = Vec::new();
    write_bulk_string(&mut out, b"hello\r\nworld");
    match read_value(&out, 0) {
        Ok((RespValue::String(s), p)) => {
            assert_eq!(s, v("hello\r\nworld"));
            assert_eq!(p, out.len());
        },
        other => panic!("unexpected: {:?}", other.map(|x| x.1)),
    }
}

#[test]
fn decode_array_header_and_elements() {
    let frame = v("*2\r\n$4\r\nECHO\r\n$5\r\nhello\r\n");
    match read_value(&frame, 0) {
        Ok((RespValue::Array(n), p)) => {
            assert_eq!(n, 2);
            assert_eq!(p, 4);
        },
        other => panic!("unexpected: {:?}", other.map(|x| x.1)),
    }
    let (vals, p) = read_string_array(&frame, 0).unwrap();
    assert_eq!(vals, vec![v("ECHO"), v("hello")]);
    assert_eq!(p, frame.len());
}

#[test]
fn array_framing_leaves_next_frame_alone() {
    let mut frame = v("*1\r\n$4\r\nPING\r\n");
    let second_at = frame.len();
    frame.extend_from_slice(b"+OK\r\n");
    let (vals, p) = read_string_array(&frame, 0).unwrap();
    assert_eq!(vals, vec![v("PING")]);
    assert_eq!(p, second_at);
    match read_value(&frame, p) {
        Ok((RespValue::String(s), q)) => {
            assert_eq!(s, v("OK"));
            assert_eq!(q, frame.len());
        },
        other => panic!("unexpected: {:?}", other.map(|x| x.1)),
    }
}

#[test]
fn decode_needs_more_bytes() {
    assert!(matches!(read_value(b"", 0), Err(WireError::UnexpectedEof)));
    assert!(matches!(read_value(b"+PON", 0), Err(WireError::UnexpectedEof)));
    assert!(matches!(read_value(b"$5\r\nhel", 0), Err(WireError::UnexpectedEof)));
    assert!(matches!(read_value(b"*2\r", 0), Err(WireError::UnexpectedEof)));
}

#[test]
fn decode_rejects_malformed_frames() {
    assert!(matches!(read_value(b"?x\r\n", 0), Err(WireError::InvalidData)));
    assert!(matches!(read_value(b"$abc\r\n", 0), Err(WireError::InvalidData)));
    assert!(matches!(read_value(b"$-1\r\n", 0), Err(WireError::InvalidData)));
    assert!(matches!(read_value(b"$3\r\nabcXY", 0), Err(WireError::InvalidData)));
    assert!(matches!(read_string(b"*2\r\n", 0), Err(WireError::InvalidData)));
    assert!(matches!(read_array(b"+OK\r\n", 0), Err(WireError::InvalidData)));
    assert!(matches!(read_string_array(b"*-1\r\n", 0), Err(WireError::InvalidData)));
}

#[test]
fn read_line_strips_crlf() {
    let (line, p) = read_line(b"abc\r\ndef\r\n", 0).unwrap();
    assert_eq!(line, v("abc"));
    assert_eq!(p, 5);
    let (line2, p2) = read_line(b"abc\r\ndef\r\n", p).unwrap();
    assert_eq!(line2, v("def"));
    assert_eq!(p2, 10);
    assert!(matches!(read_line(b"abc\rdef", 0), Err(WireError::UnexpectedEof)));
}
