//! Tests of the directory and chain codecs.

use ifd_chain::chain::{read_raw_ifds, write_raw_ifds};
use ifd_chain::codec::{ByteOrder, IfdError};
use ifd_chain::raw_ifd::{RawIFD, RawIFDEntry};

fn entry(tag: u16, tag_type: u16, count: u32, value_or_offset: [u8; 4]) -> RawIFDEntry {
    RawIFDEntry { tag, tag_type, count, value_or_offset }
}

fn u32_of(bytes: &[u8], i: usize, o: ByteOrder) -> u32 {
    let b = [bytes[i], bytes[i + 1], bytes[i + 2], bytes[i + 3]];
    match o {
        ByteOrder::Big => u32::from_be_bytes(b),
        ByteOrder::Little => u32::from_le_bytes(b),
    }
}

/// Encodes the initial next-directory offset a reader starts from.
fn initial_link(target: u32, o: ByteOrder) -> Vec<u8> {
    match o {
        ByteOrder::Big => target.to_be_bytes().to_vec(),
        ByteOrder::Little => target.to_le_bytes().to_vec(),
    }
}

#[test]
fn directory_round_trip() {
    let dir = RawIFD(vec![
        entry(256, 3, 1, [0, 100, 0, 0]),
        entry(257, 3, 1, [0, 200, 0, 0]),
        entry(273, 4, 1, [0, 0, 1, 0]),
    ]);
    for o in [ByteOrder::Big, ByteOrder::Little] {
        let mut out: Vec<u8> = Vec::new();
        dir.to_writer(&mut out, o).unwrap();
        assert_eq!(out.len(), 2 + 12 * 3);
        let mut pos: usize = 0;
        let back = RawIFD::from_reader(&out, &mut pos, o).unwrap();
        assert_eq!(back, dir);
        assert_eq!(pos, out.len());
    }
}

#[test]
fn directory_truncated_mid_entry_is_an_error() {
    // a directory that promises one entry but holds only 8 of its 12 bytes
    let dir = RawIFD(vec![entry(1, 2, 3, [4, 5, 6, 7])]);
    let mut out: Vec<u8> = Vec::new();
    dir.to_writer(&mut out, ByteOrder::Big).unwrap();
    out.truncate(2 + 8);
    let mut pos: usize = 0;
    let r = RawIFD::from_reader(&out, &mut pos, ByteOrder::Big);
    assert_eq!(r, Err(IfdError::Truncated));
}

#[test]
fn directory_truncated_count_field_is_an_error() {
    let bytes: Vec<u8> = vec![7];
    let mut pos: usize = 0;
    let r = RawIFD::from_reader(&bytes, &mut pos, ByteOrder::Little);
    assert_eq!(r, Err(IfdError::Truncated));
}

#[test]
fn directory_count_overflow_is_a_contract_error() {
    let too_big = RawIFD(vec![entry(0, 0, 0, [0, 0, 0, 0]); 65536]);
    let mut out: Vec<u8> = Vec::new();
    let r = too_big.to_writer(&mut out, ByteOrder::Big);
    assert_eq!(r, Err(IfdError::TooManyEntries));
    assert!(out.is_empty());
    let r2 = write_raw_ifds(&mut out, &[too_big], ByteOrder::Big);
    assert_eq!(r2, Err(IfdError::TooManyEntries));
    assert!(out.is_empty());
}

#[test]
fn directory_largest_count_still_writes() {
    let dir = RawIFD(vec![entry(1, 1, 1, [1, 1, 1, 1]); 65535]);
    let mut out: Vec<u8> = Vec::new();
    dir.to_writer(&mut out, ByteOrder::Big).unwrap();
    assert_eq!(out.len(), 2 + 12 * 65535);
    assert_eq!(&out[0..2], &[0xff, 0xff]);
}

#[test]
fn empty_chain_writes_one_zero_sentinel() {
    for o in [ByteOrder::Big, ByteOrder::Little] {
        let mut out: Vec<u8> = Vec::new();
        write_raw_ifds(&mut out, &[], o).unwrap();
        assert_eq!(out, vec![0, 0, 0, 0]);
        let mut pos: usize = 0;
        let back = read_raw_ifds(&out, &mut pos, o).unwrap();
        assert!(back.is_empty());
        assert_eq!(pos, 4);
    }
}

#[test]
fn zero_first_link_reads_empty_chain() {
    // whatever follows the zero link is never looked at
    let bytes: Vec<u8> = vec![0, 0, 0, 0, 0xde, 0xad, 0xbe, 0xef];
    let mut pos: usize = 0;
    let back = read_raw_ifds(&bytes, &mut pos, ByteOrder::Big).unwrap();
    assert!(back.is_empty());
    assert_eq!(pos, 4);
}

#[test]
fn chain_round_trip_both_orders() {
    let chain = vec![
        RawIFD(vec![entry(256, 3, 1, [2, 0, 0, 0]), entry(257, 3, 1, [3, 0, 0, 0])]),
        RawIFD(vec![entry(282, 5, 1, [0, 0, 0, 8])]),
        RawIFD(vec![]),
    ];
    for o in [ByteOrder::Big, ByteOrder::Little] {
        // the chain's bytes sit at position 4, after the initial link to them
        let mut stream = initial_link(4, o);
        write_raw_ifds(&mut stream, &chain, o).unwrap();
        let mut pos: usize = 0;
        let back = read_raw_ifds(&stream, &mut pos, o).unwrap();
        assert_eq!(back, chain);
        assert_eq!(pos, stream.len());
    }
}

#[test]
fn chain_linkage_three_directories() {
    // directories of 1, 2 and 0 entries, written at position 4
    let chain = vec![
        RawIFD(vec![entry(1, 1, 1, [1, 1, 1, 1])]),
        RawIFD(vec![entry(2, 2, 2, [2, 2, 2, 2]), entry(3, 3, 3, [3, 3, 3, 3])]),
        RawIFD(vec![]),
    ];
    for o in [ByteOrder::Big, ByteOrder::Little] {
        let mut stream = initial_link(4, o);
        write_raw_ifds(&mut stream, &chain, o).unwrap();
        // directory starts: 4, then 4 + (2 + 12) + 4 = 22, then 22 + (2 + 24) + 4 = 52
        // link after directory 0 sits at 4 + 14 = 18 and names directory 1
        assert_eq!(u32_of(&stream, 18, o), 22);
        // link after directory 1 sits at 22 + 26 = 48 and names directory 2
        assert_eq!(u32_of(&stream, 48, o), 52);
        // link after the last directory sits at 52 + 2 = 54 and is zero
        assert_eq!(u32_of(&stream, 54, o), 0);
        assert_eq!(stream.len(), 58);
    }
}

#[test]
fn chain_read_follows_offsets_anywhere() {
    // a chain whose single directory sits after some unrelated bytes
    let mut stream = initial_link(10, ByteOrder::Little);
    stream.extend_from_slice(&[0xaa; 6]);
    let dir = RawIFD(vec![entry(9, 9, 9, [9, 9, 9, 9])]);
    write_raw_ifds(&mut stream, &[dir.clone()], ByteOrder::Little).unwrap();
    let mut pos: usize = 0;
    let back = read_raw_ifds(&stream, &mut pos, ByteOrder::Little).unwrap();
    assert_eq!(back, vec![dir]);
}

#[test]
fn chain_truncated_link_is_an_error() {
    let bytes: Vec<u8> = vec![0, 0];
    let mut pos: usize = 0;
    let r = read_raw_ifds(&bytes, &mut pos, ByteOrder::Big);
    assert_eq!(r, Err(IfdError::Truncated));
}

#[test]
fn chain_truncated_directory_is_an_error() {
    // the first link names position 4, where a directory promises two
    // entries but the stream ends after one byte of them
    let mut stream = initial_link(4, ByteOrder::Big);
    stream.extend_from_slice(&[0, 2, 1]);
    let mut pos: usize = 0;
    let r = read_raw_ifds(&stream, &mut pos, ByteOrder::Big);
    assert_eq!(r, Err(IfdError::Truncated));
}

#[test]
fn chain_offset_cycle_is_cut_off() {
    // the link after the directory points back at the directory: a cycle
    let mut stream = initial_link(4, ByteOrder::Big);
    stream.extend_from_slice(&[0, 0]); // directory at 4: zero entries
    stream.extend_from_slice(&initial_link(4, ByteOrder::Big)); // link at 6
    let mut pos: usize = 0;
    let r = read_raw_ifds(&stream, &mut pos, ByteOrder::Big);
    assert_eq!(r, Err(IfdError::ChainTooLong));
}
