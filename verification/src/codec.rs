//! Byte-order-parameterized packing of 16- and 32-bit words.
//!
//! The spec functions `word_val` / `quad_val` say what integer a pair or a
//! quadruple of stream bytes denotes under a byte order, and `word_bytes` /
//! `quad_bytes` say which bytes an integer is laid out as. The executable
//! readers and writers are proved against them, and the round-trip lemmas tie
//! the two directions together.

use vstd::prelude::*;

verus! {

/// The byte order of every multi-byte integer field in one stream,
/// chosen once per file by the caller (from the file's header magic).
#[derive(Debug, Clone, Copy, PartialEq, Eq, Structural)]
pub enum ByteOrder {
    /// Most significant byte first.
    Big,
    /// Least significant byte first.
    Little,
}

/// Errors the codec can surface.
#[derive(Debug, Clone, Copy, PartialEq, Eq, Structural)]
pub enum IfdError {
    /// The stream ended before a whole field, entry or directory could be read.
    Truncated,
    /// A directory on the write path holds more entries than its 16-bit
    /// on-disk count can carry: a caller contract breach, not an I/O fault.
    TooManyEntries,
    /// The chain walk read more directories than the stream has bytes, which
    /// only a cycle of next-directory offsets can produce; following it
    /// further would never terminate.
    ChainTooLong,
}

/// The 16-bit value that two stream bytes denote under byte order `o`.
pub open spec fn word_val(b0: u8, b1: u8, o: ByteOrder) -> u16 {
    match o {
        ByteOrder::Big => ((b0 as u16) << 8) | (b1 as u16),
        ByteOrder::Little => ((b1 as u16) << 8) | (b0 as u16),
    }
}

/// The 32-bit value that four stream bytes denote under byte order `o`.
pub open spec fn quad_val(b0: u8, b1: u8, b2: u8, b3: u8, o: ByteOrder) -> u32 {
    match o {
        ByteOrder::Big => ((b0 as u32) << 24) | ((b1 as u32) << 16) | ((b2 as u32) << 8) | (
        b3 as u32),
        ByteOrder::Little => ((b3 as u32) << 24) | ((b2 as u32) << 16) | ((b1 as u32) << 8) | (
        b0 as u32),
    }
}

/// The 16-bit value denoted by the two bytes of `d` at position `i`.
pub open spec fn word_at(d: Seq<u8>, i: int, o: ByteOrder) -> u16
    recommends
        0 <= i,
        i + 2 <= d.len(),
{
    word_val(d[i], d[i + 1], o)
}

/// The 32-bit value denoted by the four bytes of `d` at position `i`.
pub open spec fn quad_at(d: Seq<u8>, i: int, o: ByteOrder) -> u32
    recommends
        0 <= i,
        i + 4 <= d.len(),
{
    quad_val(d[i], d[i + 1], d[i + 2], d[i + 3], o)
}

/// The two bytes that a 16-bit value is laid out as under byte order `o`.
pub open spec fn word_bytes(v: u16, o: ByteOrder) -> Seq<u8> {
    match o {
        ByteOrder::Big => seq![((v >> 8) & 0xff) as u8, (v & 0xff) as u8],
        ByteOrder::Little => seq![(v & 0xff) as u8, ((v >> 8) & 0xff) as u8],
    }
}

/// The four bytes that a 32-bit value is laid out as under byte order `o`.
pub open spec fn quad_bytes(v: u32, o: ByteOrder) -> Seq<u8> {
    match o {
        ByteOrder::Big => seq![
            ((v >> 24) & 0xff) as u8,
            ((v >> 16) & 0xff) as u8,
            ((v >> 8) & 0xff) as u8,
            (v & 0xff) as u8,
        ],
        ByteOrder::Little => seq![
            (v & 0xff) as u8,
            ((v >> 8) & 0xff) as u8,
            ((v >> 16) & 0xff) as u8,
            ((v >> 24) & 0xff) as u8,
        ],
    }
}

/// Decoding the two bytes a 16-bit value was encoded as yields it back,
/// under either byte order.
pub proof fn lemma_word_round_trip(v: u16, o: ByteOrder)
    ensures
        word_bytes(v, o).len() == 2,
        word_val(word_bytes(v, o)[0], word_bytes(v, o)[1], o) == v,
{
    assert((((((v >> 8) & 0xff) as u8) as u16) << 8) | (((v & 0xff) as u8) as u16) == v)
        by (bit_vector);
}

/// Decoding the four bytes a 32-bit value was encoded as yields it back,
/// under either byte order.
pub proof fn lemma_quad_round_trip(v: u32, o: ByteOrder)
    ensures
        quad_bytes(v, o).len() == 4,
        quad_val(
            quad_bytes(v, o)[0],
            quad_bytes(v, o)[1],
            quad_bytes(v, o)[2],
            quad_bytes(v, o)[3],
            o,
        ) == v,
{
    assert((((((v >> 24) & 0xff) as u8) as u32) << 24) | (((((v >> 16) & 0xff) as u8) as u32)
        << 16) | (((((v >> 8) & 0xff) as u8) as u32) << 8) | (((v & 0xff) as u8) as u32) == v)
        by (bit_vector);
}

/// Reads the 16-bit word at position `i` of `data`.
pub fn get_u16_at(data: &[u8], i: usize, o: ByteOrder) -> (r: u16)
    requires
        i + 2 <= data@.len(),
    ensures
        r == word_at(data@, i as int, o),
{
    // binds the length as a usize so index arithmetic below cannot overflow
    let n: usize = data.len();
    match o {
        ByteOrder::Big => ((data[i] as u16) << 8u16) | (data[i + 1] as u16),
        ByteOrder::Little => ((data[i + 1] as u16) << 8u16) | (data[i] as u16),
    }
}

/// Reads the 32-bit word at position `i` of `data`.
pub fn get_u32_at(data: &[u8], i: usize, o: ByteOrder) -> (r: u32)
    requires
        i + 4 <= data@.len(),
    ensures
        r == quad_at(data@, i as int, o),
{
    // binds the length as a usize so index arithmetic below cannot overflow
    let n: usize = data.len();
    match o {
        ByteOrder::Big => ((data[i] as u32) << 24u32) | ((data[i + 1] as u32) << 16u32) | ((data[i
            + 2] as u32) << 8u32) | (data[i + 3] as u32),
        ByteOrder::Little => ((data[i + 3] as u32) << 24u32) | ((data[i + 2] as u32) << 16u32) | ((
        data[i + 1] as u32) << 8u32) | (data[i] as u32),
    }
}

/// Appends the two bytes of `v` to `out` in byte order `o`.
pub fn put_u16(out: &mut Vec<u8>, v: u16, o: ByteOrder)
    ensures
        final(out)@ == old(out)@ + word_bytes(v, o),
{
    let hi: u8 = ((v >> 8u16) & 0xff) as u8;
    let lo: u8 = (v & 0xff) as u8;
    match o {
        ByteOrder::Big => {
            out.push(hi);
            out.push(lo);
        },
        ByteOrder::Little => {
            out.push(lo);
            out.push(hi);
        },
    }
    proof {
        assert(out@ =~= old(out)@ + word_bytes(v, o));
    }
}

/// Appends the four bytes of `v` to `out` in byte order `o`.
pub fn put_u32(out: &mut Vec<u8>, v: u32, o: ByteOrder)
    ensures
        final(out)@ == old(out)@ + quad_bytes(v, o),
{
    let b3: u8 = ((v >> 24u32) & 0xff) as u8;
    let b2: u8 = ((v >> 16u32) & 0xff) as u8;
    let b1: u8 = ((v >> 8u32) & 0xff) as u8;
    let b0: u8 = (v & 0xff) as u8;
    match o {
        ByteOrder::Big => {
            out.push(b3);
            out.push(b2);
            out.push(b1);
            out.push(b0);
        },
        ByteOrder::Little => {
            out.push(b0);
            out.push(b1);
            out.push(b2);
            out.push(b3);
        },
    }
    proof {
        assert(out@ =~= old(out)@ + quad_bytes(v, o));
    }
}

} // verus!
