//! Tests of the fixed 12-byte entry codec.

use ifd_chain::codec::{ByteOrder, IfdError};
use ifd_chain::raw_ifd::RawIFDEntry;

fn entry(tag: u16, tag_type: u16, count: u32, value_or_offset: [u8; 4]) -> RawIFDEntry {
    RawIFDEntry { tag, tag_type, count, value_or_offset }
}

#[test]
fn entry_encodes_to_exactly_12_bytes() {
    let e = entry(0xffff, 0x0000, 0xdeadbeef, [1, 2, 3, 4]);
    for o in [ByteOrder::Big, ByteOrder::Little] {
        let mut out: Vec<u8> = Vec::new();
        e.to_writer(&mut out, o);
        assert_eq!(out.len(), 12);
    }
}

#[test]
fn entry_exact_bytes_big_endian() {
    let e = entry(0x0102, 0x0304, 0x05060708, [9, 10, 11, 12]);
    let mut out: Vec<u8> = Vec::new();
    e.to_writer(&mut out, ByteOrder::Big);
    assert_eq!(out, vec![1, 2, 3, 4, 5, 6, 7, 8, 9, 10, 11, 12]);
}

#[test]
fn entry_exact_bytes_little_endian() {
    let e = entry(0x0102, 0x0304, 0x05060708, [9, 10, 11, 12]);
    let mut out: Vec<u8> = Vec::new();
    e.to_writer(&mut out, ByteOrder::Little);
    assert_eq!(out, vec![2, 1, 4, 3, 8, 7, 6, 5, 9, 10, 11, 12]);
}

#[test]
fn entry_round_trip_big_endian() {
    let e = entry(0x8005, 0x0003, 0x00010000, [0xde, 0xad, 0xbe, 0xef]);
    let mut out: Vec<u8> = Vec::new();
    e.to_writer(&mut out, ByteOrder::Big);
    let mut pos: usize = 0;
    let back = RawIFDEntry::from_reader(&out, &mut pos, ByteOrder::Big).unwrap();
    assert_eq!(back, e);
    assert_eq!(pos, 12);
}

#[test]
fn entry_round_trip_little_endian() {
    let e = entry(0x8005, 0x0003, 0x00010000, [0xde, 0xad, 0xbe, 0xef]);
    let mut out: Vec<u8> = Vec::new();
    e.to_writer(&mut out, ByteOrder::Little);
    let mut pos: usize = 0;
    let back = RawIFDEntry::from_reader(&out, &mut pos, ByteOrder::Little).unwrap();
    assert_eq!(back, e);
    assert_eq!(pos, 12);
}

#[test]
fn entry_cross_order_decode_differs() {
    let e = entry(0x0102, 0x0304, 0x05060708, [9, 10, 11, 12]);
    let mut out: Vec<u8> = Vec::new();
    e.to_writer(&mut out, ByteOrder::Big);
    let mut pos: usize = 0;
    let back = RawIFDEntry::from_reader(&out, &mut pos, ByteOrder::Little).unwrap();
    assert_ne!(back, e);
    assert_eq!(back.tag, 0x0201);
}

#[test]
fn entry_truncated_stream_is_an_error() {
    // only 8 of the 12 required bytes are available
    let bytes: Vec<u8> = vec![1, 2, 3, 4, 5, 6, 7, 8];
    let mut pos: usize = 0;
    let r = RawIFDEntry::from_reader(&bytes, &mut pos, ByteOrder::Big);
    assert_eq!(r, Err(IfdError::Truncated));
    assert_eq!(pos, 0);
}

#[test]
fn entry_read_at_offset_advances_position() {
    let mut out: Vec<u8> = vec![0xaa, 0xbb];
    let e = entry(7, 8, 9, [0, 0, 0, 1]);
    e.to_writer(&mut out, ByteOrder::Big);
    let mut pos: usize = 2;
    let back = RawIFDEntry::from_reader(&out, &mut pos, ByteOrder::Big).unwrap();
    assert_eq!(back, e);
    assert_eq!(pos, 14);
}
