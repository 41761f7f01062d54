//! The directory entry and directory codecs.
//!
//! An entry is one fixed 12-byte record (2-byte tag, 2-byte type code, 4-byte
//! count, 4 raw value-or-offset bytes). A directory is a 16-bit entry count
//! followed by that many entries. `entry_bytes` / `dir_bytes` give the encode
//! direction, `entry_matches` / `dir_matches` the decode direction, and the
//! round-trip lemmas connect them.

use crate::codec::{
    get_u16_at, get_u32_at, lemma_quad_round_trip, lemma_word_round_trip, put_u16, put_u32,
    quad_at, quad_bytes, word_at, word_bytes, ByteOrder, IfdError,
};
use vstd::prelude::*;

verus! {

broadcast use vstd::array::group_array_axioms;

/// The most entries a directory can carry on disk: its count field is 16 bits.
pub const MAX_ENTRY_COUNT: usize = 0xffff;

/// One disk-stored IFD entry. Any field values are legal; the four
/// `value_or_offset` bytes are opaque payload, interpreted elsewhere.
#[derive(Debug, Clone, Copy, PartialEq, Eq)]
pub struct RawIFDEntry {
    pub tag: u16,
    pub tag_type: u16,
    pub count: u32,
    pub value_or_offset: [u8; 4],
}

/// The 12 bytes entry `e` is laid out as under byte order `o`.
pub open spec fn entry_bytes(e: RawIFDEntry, o: ByteOrder) -> Seq<u8> {
    word_bytes(e.tag, o) + word_bytes(e.tag_type, o) + quad_bytes(e.count, o)
        + e.value_or_offset@
}

/// Entry `e` is what the 12 bytes of `d` at position `i` denote under `o`.
pub open spec fn entry_matches(d: Seq<u8>, i: int, o: ByteOrder, e: RawIFDEntry) -> bool
    recommends
        0 <= i,
        i + 12 <= d.len(),
{
    &&& e.tag == word_at(d, i, o)
    &&& e.tag_type == word_at(d, i + 2, o)
    &&& e.count == quad_at(d, i + 4, o)
    &&& e.value_or_offset@ == d.subrange(i + 8, i + 12)
}

/// Every entry encodes to exactly 12 bytes.
pub proof fn lemma_entry_bytes_len(e: RawIFDEntry, o: ByteOrder)
    ensures
        entry_bytes(e, o).len() == 12,
{
}

/// The same 12 stream bytes denote only one entry.
pub proof fn lemma_entry_matches_unique(
    d: Seq<u8>,
    i: int,
    o: ByteOrder,
    e1: RawIFDEntry,
    e2: RawIFDEntry,
)
    requires
        entry_matches(d, i, o, e1),
        entry_matches(d, i, o, e2),
    ensures
        e1 == e2,
{
    assert(e1.value_or_offset =~= e2.value_or_offset);
}

/// An entry's own encoding decodes back to it: if the 12 bytes of `d` at `i`
/// are `entry_bytes(e, o)`, then `e` is what they denote.
pub proof fn lemma_entry_round_trip(d: Seq<u8>, i: int, o: ByteOrder, e: RawIFDEntry)
    requires
        0 <= i,
        i + 12 <= d.len(),
        d.subrange(i, i + 12) == entry_bytes(e, o),
    ensures
        entry_matches(d, i, o, e),
{
    let a = word_bytes(e.tag, o);
    let b = word_bytes(e.tag_type, o);
    let c = quad_bytes(e.count, o);
    let v = e.value_or_offset@;
    lemma_word_round_trip(e.tag, o);
    lemma_word_round_trip(e.tag_type, o);
    lemma_quad_round_trip(e.count, o);
    let s = d.subrange(i, i + 12);
    assert(s[0] == d[i] && s[1] == d[i + 1] && s[2] == d[i + 2] && s[3] == d[i + 3]);
    assert(s[4] == d[i + 4] && s[5] == d[i + 5] && s[6] == d[i + 6] && s[7] == d[i + 7]);
    assert(s[8] == d[i + 8] && s[9] == d[i + 9] && s[10] == d[i + 10] && s[11] == d[i + 11]);
    assert(s[0] == a[0] && s[1] == a[1]);
    assert(s[2] == b[0] && s[3] == b[1]);
    assert(s[4] == c[0] && s[5] == c[1] && s[6] == c[2] && s[7] == c[3]);
    assert(s[8] == v[0] && s[9] == v[1] && s[10] == v[2] && s[11] == v[3]);
    assert(e.tag == word_at(d, i, o));
    assert(e.tag_type == word_at(d, i + 2, o));
    assert(e.count == quad_at(d, i + 4, o));
    assert(v =~= d.subrange(i + 8, i + 12)) by {
        assert(d.subrange(i + 8, i + 12)[0] == d[i + 8]);
        assert(d.subrange(i + 8, i + 12)[1] == d[i + 9]);
        assert(d.subrange(i + 8, i + 12)[2] == d[i + 10]);
        assert(d.subrange(i + 8, i + 12)[3] == d[i + 11]);
    }
}

impl RawIFDEntry {
    /// Decodes one entry from the 12 bytes at `*pos`, advancing `*pos` past
    /// them; `Err(Truncated)` exactly when fewer than 12 bytes remain.
    pub fn from_reader(data: &[u8], pos: &mut usize, o: ByteOrder) -> (r: Result<
        RawIFDEntry,
        IfdError,
    >)
        ensures
            *old(pos) + 12 <= data@.len() ==> r is Ok && *final(pos) == *old(pos) + 12
                && entry_matches(data@, *old(pos) as int, o, r->Ok_0),
            *old(pos) + 12 > data@.len() ==> r is Err && r->Err_0 == IfdError::Truncated
                && *final(pos) == *old(pos),
    {
        let n: usize = data.len();
        if n < 12 || *pos > n - 12 {
            return Err(IfdError::Truncated);
        }
        let p: usize = *pos;
        let tag: u16 = get_u16_at(data, p, o);
        let tag_type: u16 = get_u16_at(data, p + 2, o);
        let count: u32 = get_u32_at(data, p + 4, o);
        let mut buf: [u8; 4] = [0u8; 4];
        buf[0] = data[p + 8];
        buf[1] = data[p + 9];
        buf[2] = data[p + 10];
        buf[3] = data[p + 11];
        *pos = p + 12;
        let e = RawIFDEntry { tag, tag_type, count, value_or_offset: buf };
        proof {
            assert(e.value_or_offset@[0] == data@[p + 8]);
            assert(e.value_or_offset@[1] == data@[p + 9]);
            assert(e.value_or_offset@[2] == data@[p + 10]);
            assert(e.value_or_offset@[3] == data@[p + 11]);
            assert(e.value_or_offset@ =~= data@.subrange(p + 8, p + 12)) by {
                assert(data@.subrange(p + 8, p + 12)[0] == data@[p + 8]);
                assert(data@.subrange(p + 8, p + 12)[1] == data@[p + 9]);
                assert(data@.subrange(p + 8, p + 12)[2] == data@[p + 10]);
                assert(data@.subrange(p + 8, p + 12)[3] == data@[p + 11]);
            }
        }
        Ok(e)
    }

    /// Encodes the entry's four fields in order; always exactly 12 bytes,
    /// whatever the field values.
    pub fn to_writer(&self, out: &mut Vec<u8>, o: ByteOrder)
        ensures
            final(out)@ == old(out)@ + entry_bytes(*self, o),
            final(out)@.len() == old(out)@.len() + 12,
    {
        put_u16(out, self.tag, o);
        put_u16(out, self.tag_type, o);
        put_u32(out, self.count, o);
        out.push(self.value_or_offset[0]);
        out.push(self.value_or_offset[1]);
        out.push(self.value_or_offset[2]);
        out.push(self.value_or_offset[3]);
        proof {
            assert(out@ =~= old(out)@ + entry_bytes(*self, o));
        }
    }
}

/// One disk-stored IFD: an order-significant list of entries.
#[derive(Debug, Clone, PartialEq, Eq)]
pub struct RawIFD(pub Vec<RawIFDEntry>);

impl View for RawIFD {
    type V = Seq<RawIFDEntry>;

    open spec fn view(&self) -> Seq<RawIFDEntry> {
        self.0@
    }
}

/// The bytes of the entries of `dir`, in order.
pub open spec fn entries_bytes(dir: Seq<RawIFDEntry>, o: ByteOrder) -> Seq<u8>
    decreases dir.len(),
{
    if dir.len() == 0 {
        Seq::empty()
    } else {
        entry_bytes(dir[0], o) + entries_bytes(dir.drop_first(), o)
    }
}

/// The on-disk bytes of a whole directory: 16-bit entry count, then entries.
pub open spec fn dir_bytes(dir: Seq<RawIFDEntry>, o: ByteOrder) -> Seq<u8>
    recommends
        dir.len() <= MAX_ENTRY_COUNT,
{
    word_bytes(dir.len() as u16, o) + entries_bytes(dir, o)
}

/// Encoded size of a directory record with `n` entries.
pub open spec fn dir_size(n: int) -> int {
    2 + 12 * n
}

/// `dir` is what the directory record of `d` at position `i` denotes under `o`.
pub open spec fn dir_matches(d: Seq<u8>, i: int, o: ByteOrder, dir: Seq<RawIFDEntry>) -> bool {
    &&& 0 <= i
    &&& i + 2 <= d.len()
    &&& dir.len() == word_at(d, i, o)
    &&& i + dir_size(dir.len() as int) <= d.len()
    &&& forall|j: int|
        0 <= j < dir.len() ==> entry_matches(d, i + 2 + 12 * j, o, #[trigger] dir[j])
}

/// Reading a directory record at `i` runs off the end of `d`: the stream is
/// too short for the count field itself or for the entries it promises.
pub open spec fn dir_read_fails(d: Seq<u8>, i: int, o: ByteOrder) -> bool {
    i + 2 > d.len() || i + dir_size(word_at(d, i, o) as int) > d.len()
}

pub proof fn lemma_entries_bytes_len(dir: Seq<RawIFDEntry>, o: ByteOrder)
    ensures
        entries_bytes(dir, o).len() == 12 * dir.len(),
    decreases dir.len(),
{
    if dir.len() > 0 {
        lemma_entries_bytes_len(dir.drop_first(), o);
    }
}

/// A directory record's byte length is `dir_size` of its entry count.
pub proof fn lemma_dir_bytes_len(dir: Seq<RawIFDEntry>, o: ByteOrder)
    ensures
        dir_bytes(dir, o).len() == dir_size(dir.len() as int),
{
    lemma_entries_bytes_len(dir, o);
}

/// Appending one entry appends its 12 bytes.
pub proof fn lemma_entries_bytes_push(dir: Seq<RawIFDEntry>, e: RawIFDEntry, o: ByteOrder)
    ensures
        entries_bytes(dir.push(e), o) == entries_bytes(dir, o) + entry_bytes(e, o),
    decreases dir.len(),
{
    if dir.len() == 0 {
        assert(dir.push(e)[0] == e);
        assert(dir.push(e).drop_first() =~= Seq::<RawIFDEntry>::empty());
        assert(entries_bytes(dir, o) == Seq::<u8>::empty());
        assert(entries_bytes(dir.push(e).drop_first(), o) == Seq::<u8>::empty());
        assert(entries_bytes(dir.push(e), o) == entry_bytes(e, o) + Seq::<u8>::empty());
        assert(entries_bytes(dir.push(e), o) =~= entries_bytes(dir, o) + entry_bytes(e, o));
    } else {
        assert(dir.push(e)[0] == dir[0]);
        assert(dir.push(e).drop_first() =~= dir.drop_first().push(e));
        lemma_entries_bytes_push(dir.drop_first(), e, o);
        assert(entries_bytes(dir.push(e), o) == entry_bytes(dir[0], o) + (entries_bytes(
            dir.drop_first(),
            o,
        ) + entry_bytes(e, o)));
        assert(entries_bytes(dir.push(e), o) =~= entries_bytes(dir, o) + entry_bytes(e, o));
    }
}

/// Entry `j` of a directory occupies bytes `12 j .. 12 j + 12` of the
/// directory's entry area.
pub proof fn lemma_entries_bytes_index(dir: Seq<RawIFDEntry>, o: ByteOrder, j: int)
    requires
        0 <= j < dir.len(),
    ensures
        entries_bytes(dir, o).subrange(12 * j, 12 * j + 12) == entry_bytes(dir[j], o),
    decreases j,
{
    lemma_entries_bytes_len(dir, o);
    lemma_entries_bytes_len(dir.drop_first(), o);
    lemma_entry_bytes_len(dir[0], o);
    let eb = entries_bytes(dir, o);
    if j == 0 {
        assert(eb.subrange(0, 12) =~= entry_bytes(dir[0], o)) by {
            assert forall|t: int| 0 <= t < 12 implies eb.subrange(0, 12)[t] == entry_bytes(
                dir[0],
                o,
            )[t] by {
                assert(eb.subrange(0, 12)[t] == eb[t]);
                assert(eb[t] == entry_bytes(dir[0], o)[t]);
            }
        }
    } else {
        lemma_entries_bytes_index(dir.drop_first(), o, j - 1);
        let tail = entries_bytes(dir.drop_first(), o);
        assert(eb.subrange(12 * j, 12 * j + 12) =~= tail.subrange(12 * (j - 1), 12 * (j - 1)
            + 12)) by {
            assert forall|t: int| 0 <= t < 12 implies #[trigger] (eb.subrange(
                12 * j,
                12 * j + 12,
            )[t]) == tail.subrange(12 * (j - 1), 12 * (j - 1) + 12)[t] by {
                assert(eb.subrange(12 * j, 12 * j + 12)[t] == eb[12 * j + t]);
                assert(eb[12 * j + t] == tail[12 * j + t - 12]);
                assert(tail.subrange(12 * (j - 1), 12 * (j - 1) + 12)[t] == tail[12 * (j - 1)
                    + t]);
            }
        }
        assert(dir.drop_first()[j - 1] == dir[j]);
    }
}

/// The same directory record bytes denote only one directory.
pub proof fn lemma_dir_matches_unique(
    d: Seq<u8>,
    i: int,
    o: ByteOrder,
    dir1: Seq<RawIFDEntry>,
    dir2: Seq<RawIFDEntry>,
)
    requires
        dir_matches(d, i, o, dir1),
        dir_matches(d, i, o, dir2),
    ensures
        dir1 == dir2,
{
    assert forall|j: int| 0 <= j < dir1.len() implies dir1[j] == dir2[j] by {
        lemma_entry_matches_unique(d, i + 2 + 12 * j, o, dir1[j], dir2[j]);
    }
    assert(dir1 =~= dir2);
}

/// A directory's own encoding decodes back to it.
pub proof fn lemma_dir_round_trip(d: Seq<u8>, i: int, o: ByteOrder, dir: Seq<RawIFDEntry>)
    requires
        0 <= i,
        dir.len() <= MAX_ENTRY_COUNT,
        i + dir_size(dir.len() as int) <= d.len(),
        d.subrange(i, i + dir_size(dir.len() as int)) == dir_bytes(dir, o),
    ensures
        dir_matches(d, i, o, dir),
{
    let w = word_bytes(dir.len() as u16, o);
    let eb = entries_bytes(dir, o);
    let s = d.subrange(i, i + dir_size(dir.len() as int));
    lemma_word_round_trip(dir.len() as u16, o);
    lemma_entries_bytes_len(dir, o);
    assert(s[0] == d[i] && s[1] == d[i + 1]);
    assert(s[0] == w[0] && s[1] == w[1]);
    assert(word_at(d, i, o) == dir.len());
    assert forall|j: int| 0 <= j < dir.len() implies entry_matches(
        d,
        i + 2 + 12 * j,
        o,
        #[trigger] dir[j],
    ) by {
        lemma_entries_bytes_index(dir, o, j);
        lemma_entry_bytes_len(dir[j], o);
        assert(d.subrange(i + 2 + 12 * j, i + 2 + 12 * j + 12) =~= eb.subrange(
            12 * j,
            12 * j + 12,
        )) by {
            assert forall|t: int| 0 <= t < 12 implies #[trigger] (d.subrange(
                i + 2 + 12 * j,
                i + 2 + 12 * j + 12,
            )[t]) == eb.subrange(12 * j, 12 * j + 12)[t] by {
                assert(d.subrange(i + 2 + 12 * j, i + 2 + 12 * j + 12)[t] == d[i + 2 + 12 * j
                    + t]);
                assert(s[2 + 12 * j + t] == d[i + (2 + 12 * j + t)]);
                assert(s[2 + 12 * j + t] == eb[12 * j + t]);
                assert(eb.subrange(12 * j, 12 * j + 12)[t] == eb[12 * j + t]);
            }
        }
        lemma_entry_round_trip(d, i + 2 + 12 * j, o, dir[j]);
    }
}

impl RawIFD {
    /// Decodes one whole directory at `*pos`: the 16-bit entry count, then
    /// that many entries. Atomic: `Err(Truncated)` exactly when the stream is
    /// too short for the count field or any promised entry, and no partial
    /// directory is returned.
    pub fn from_reader(data: &[u8], pos: &mut usize, o: ByteOrder) -> (r: Result<RawIFD, IfdError>)
        ensures
            !dir_read_fails(data@, *old(pos) as int, o) ==> r is Ok && dir_matches(
                data@,
                *old(pos) as int,
                o,
                r->Ok_0@,
            ) && *final(pos) == *old(pos) + dir_size(r->Ok_0@.len() as int),
            dir_read_fails(data@, *old(pos) as int, o) ==> r is Err && r->Err_0
                == IfdError::Truncated,
    {
        let n: usize = data.len();
        if n < 2 || *pos > n - 2 {
            return Err(IfdError::Truncated);
        }
        let p: usize = *pos;
        let entry_count: u16 = get_u16_at(data, p, o);
        *pos = p + 2;
        let m: usize = entry_count as usize;
        let mut entries: Vec<RawIFDEntry> = Vec::new();
        let mut i: usize = 0;
        while i < m
            invariant
                i <= m,
                entries@.len() == i,
                n == data@.len(),
                p == *old(pos),
                p + 2 <= n,
                m == word_at(data@, p as int, o),
                *pos == p + 2 + 12 * i,
                *pos <= n,
                forall|j: int|
                    0 <= j < i ==> entry_matches(data@, p + 2 + 12 * j, o, #[trigger] entries@[j]),
            decreases m - i,
        {
            match RawIFDEntry::from_reader(data, pos, o) {
                Ok(e) => {
                    entries.push(e);
                },
                Err(_) => {
                    assert(p + 2 + 12 * (i + 1) > n);
                    assert(12 * (i + 1) <= 12 * m);
                    assert(dir_read_fails(data@, p as int, o));
                    return Err(IfdError::Truncated);
                },
            }
            i = i + 1;
        }
        assert(dir_matches(data@, p as int, o, entries@));
        Ok(RawIFD(entries))
    }

    /// Encodes the entry count as 16 bits, then each entry in order. A
    /// directory whose count cannot fit in 16 bits is a caller contract
    /// breach: `Err(TooManyEntries)`, with nothing written.
    pub fn to_writer(&self, out: &mut Vec<u8>, o: ByteOrder) -> (r: Result<(), IfdError>)
        ensures
            self@.len() <= MAX_ENTRY_COUNT ==> r is Ok && final(out)@ == old(out)@ + dir_bytes(
                self@,
                o,
            ),
            self@.len() > MAX_ENTRY_COUNT ==> r is Err && r->Err_0 == IfdError::TooManyEntries
                && final(out)@ == old(out)@,
    {
        let m: usize = self.0.len();
        if m > MAX_ENTRY_COUNT {
            return Err(IfdError::TooManyEntries);
        }
        put_u16(out, m as u16, o);
        let mut i: usize = 0;
        while i < m
            invariant
                i <= m,
                m == self@.len() <= MAX_ENTRY_COUNT,
                out@ == old(out)@ + word_bytes(m as u16, o) + entries_bytes(
                    self@.take(i as int),
                    o,
                ),
            decreases m - i,
        {
            let e: RawIFDEntry = self.0[i];
            e.to_writer(out, o);
            proof {
                assert(self@.take(i + 1) =~= self@.take(i as int).push(self@[i as int]));
                lemma_entries_bytes_push(self@.take(i as int), self@[i as int], o);
                assert(old(out)@ + word_bytes(m as u16, o) + (entries_bytes(
                    self@.take(i as int),
                    o,
                ) + entry_bytes(self@[i as int], o)) =~= old(out)@ + word_bytes(m as u16, o)
                    + entries_bytes(self@.take(i + 1), o));
                assert(out@ =~= old(out)@ + word_bytes(m as u16, o) + entries_bytes(
                    self@.take(i + 1),
                    o,
                ));
            }
            i = i + 1;
        }
        proof {
            assert(self@.take(m as int) =~= self@);
            assert(out@ =~= old(out)@ + dir_bytes(self@, o));
        }
        Ok(())
    }
}

} // verus!
