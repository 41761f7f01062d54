//! The directory chain codec.
//!
//! On disk a chain is a linked list: at the read position sits a 4-byte
//! absolute offset; zero ends the chain, and any other value names the start
//! of a directory record, directly after which the next offset sits. The
//! writer lays directories out back to back, patching each link to the
//! position right after it, and ends with a zero sentinel.
//!
//! `links_at` describes a successful walk of the links, `chain_at` a walk
//! ended by the zero sentinel, and `chain_bytes` the exact byte image the
//! writer produces. The lemmas at the end tie them together: a written chain
//! reads back as itself, a chain parse is unique, and no failing walk
//! coexists with a complete one.

use crate::codec::{
    get_u32_at, lemma_quad_round_trip, put_u32, quad_at, quad_bytes, ByteOrder, IfdError,
};
use crate::raw_ifd::{
    dir_bytes, dir_matches, dir_read_fails, dir_size, lemma_dir_bytes_len,
    lemma_dir_matches_unique, lemma_dir_round_trip, RawIFD, RawIFDEntry, MAX_ENTRY_COUNT,
};
use vstd::prelude::*;

verus! {

/// The directory sequences of a list of in-memory IFDs.
pub open spec fn ifds_view(s: Seq<RawIFD>) -> Seq<Seq<RawIFDEntry>> {
    s.map_values(|d: RawIFD| d@)
}

/// Every directory of `chain` has a count its 16-bit field can carry.
pub open spec fn chain_fits(chain: Seq<Seq<RawIFDEntry>>) -> bool {
    forall|i: int| 0 <= i < chain.len() ==> (#[trigger] chain[i]).len() <= MAX_ENTRY_COUNT
}

/// A successful walk of the link list of `d` from link position `s`: each
/// link in turn holds a nonzero offset whose directory record denotes the
/// next element of `dirs`, and after all of `dirs` the walk's link position
/// is `q`. Nothing is said about the link at `q` itself.
pub open spec fn links_at(
    d: Seq<u8>,
    s: int,
    o: ByteOrder,
    dirs: Seq<Seq<RawIFDEntry>>,
    q: int,
) -> bool
    decreases dirs.len(),
{
    if dirs.len() == 0 {
        q == s && 0 <= s
    } else {
        &&& 0 <= s
        &&& s + 4 <= d.len()
        &&& quad_at(d, s, o) != 0
        &&& dir_matches(d, quad_at(d, s, o) as int, o, dirs[0])
        &&& links_at(
            d,
            quad_at(d, s, o) + dir_size(dirs[0].len() as int),
            o,
            dirs.drop_first(),
            q,
        )
    }
}

/// `dirs` is the whole chain readable at link position `s` of `d`: a
/// successful walk whose final link is zero; `end` is the position right
/// after that zero sentinel.
pub open spec fn chain_at(
    d: Seq<u8>,
    s: int,
    o: ByteOrder,
    dirs: Seq<Seq<RawIFDEntry>>,
    end: int,
) -> bool {
    exists|q: int|
        #[trigger] links_at(d, s, o, dirs, q) && q + 4 <= d.len() && quad_at(d, q, o) == 0 && end
            == q + 4
}

/// Reading the chain at `s` runs off the end of `d`: some walk prefix stops
/// at a link position where the link itself, or the directory record the
/// link names, is truncated.
pub open spec fn chain_read_fails(d: Seq<u8>, s: int, o: ByteOrder) -> bool {
    exists|dirs: Seq<Seq<RawIFDEntry>>, q: int|
        #[trigger] links_at(d, s, o, dirs, q) && (q + 4 > d.len() || (quad_at(d, q, o) != 0
            && dir_read_fails(d, quad_at(d, q, o) as int, o)))
}

/// Extending a successful walk by one more directory.
pub proof fn lemma_links_at_push(
    d: Seq<u8>,
    s: int,
    o: ByteOrder,
    dirs: Seq<Seq<RawIFDEntry>>,
    q: int,
    dir: Seq<RawIFDEntry>,
)
    requires
        links_at(d, s, o, dirs, q),
        q + 4 <= d.len(),
        quad_at(d, q, o) != 0,
        dir_matches(d, quad_at(d, q, o) as int, o, dir),
    ensures
        links_at(d, s, o, dirs.push(dir), quad_at(d, q, o) + dir_size(dir.len() as int)),
    decreases dirs.len(),
{
    let end = quad_at(d, q, o) + dir_size(dir.len() as int);
    if dirs.len() == 0 {
        assert(dirs.push(dir)[0] == dir);
        assert(dirs.push(dir).drop_first() =~= Seq::<Seq<RawIFDEntry>>::empty());
        assert(links_at(d, end, o, Seq::<Seq<RawIFDEntry>>::empty(), end));
        assert(links_at(d, s, o, dirs.push(dir), end));
    } else {
        assert(dirs.push(dir)[0] == dirs[0]);
        assert(dirs.push(dir).drop_first() =~= dirs.drop_first().push(dir));
        lemma_links_at_push(
            d,
            quad_at(d, s, o) + dir_size(dirs[0].len() as int),
            o,
            dirs.drop_first(),
            q,
            dir,
        );
        assert(links_at(d, s, o, dirs.push(dir), end));
    }
}

/// Walks are deterministic: of two walks from one start, the shorter is a
/// prefix of the longer, and the longer continues from where the shorter
/// stopped.
pub proof fn lemma_links_at_prefix(
    d: Seq<u8>,
    s: int,
    o: ByteOrder,
    c1: Seq<Seq<RawIFDEntry>>,
    q1: int,
    c2: Seq<Seq<RawIFDEntry>>,
    q2: int,
)
    requires
        links_at(d, s, o, c1, q1),
        links_at(d, s, o, c2, q2),
        c1.len() <= c2.len(),
    ensures
        c1 == c2.take(c1.len() as int),
        links_at(d, q1, o, c2.skip(c1.len() as int), q2),
    decreases c1.len(),
{
    if c1.len() == 0 {
        assert(c1 =~= c2.take(0));
        assert(c2.skip(0) =~= c2);
    } else {
        let off = quad_at(d, s, o) as int;
        lemma_dir_matches_unique(d, off, o, c1[0], c2[0]);
        let next = off + dir_size(c1[0].len() as int);
        lemma_links_at_prefix(d, next, o, c1.drop_first(), q1, c2.drop_first(), q2);
        let n = c1.len() as int;
        assert(c1 =~= c2.take(n)) by {
            assert forall|k: int| 0 <= k < n implies c1[k] == #[trigger] c2.take(n)[k] by {
                if k == 0 {
                } else {
                    assert(c1.drop_first()[k - 1] == c2.drop_first().take(n - 1)[k - 1]);
                }
            }
        }
        assert(c2.skip(n) =~= c2.drop_first().skip(n - 1));
    }
}

/// A complete chain parse at one position is unique.
pub proof fn lemma_chain_at_unique(
    d: Seq<u8>,
    s: int,
    o: ByteOrder,
    c1: Seq<Seq<RawIFDEntry>>,
    e1: int,
    c2: Seq<Seq<RawIFDEntry>>,
    e2: int,
)
    requires
        chain_at(d, s, o, c1, e1),
        chain_at(d, s, o, c2, e2),
    ensures
        c1 == c2,
        e1 == e2,
{
    if c1.len() <= c2.len() {
        lemma_chain_at_unique_ordered(d, s, o, c1, e1, c2, e2);
    } else {
        lemma_chain_at_unique_ordered(d, s, o, c2, e2, c1, e1);
    }
}

proof fn lemma_chain_at_unique_ordered(
    d: Seq<u8>,
    s: int,
    o: ByteOrder,
    c1: Seq<Seq<RawIFDEntry>>,
    e1: int,
    c2: Seq<Seq<RawIFDEntry>>,
    e2: int,
)
    requires
        chain_at(d, s, o, c1, e1),
        chain_at(d, s, o, c2, e2),
        c1.len() <= c2.len(),
    ensures
        c1 == c2,
        e1 == e2,
{
    let q1 = choose|q: int|
        #[trigger] links_at(d, s, o, c1, q) && q + 4 <= d.len() && quad_at(d, q, o) == 0 && e1 == q
            + 4;
    let q2 = choose|q: int|
        #[trigger] links_at(d, s, o, c2, q) && q + 4 <= d.len() && quad_at(d, q, o) == 0 && e2 == q
            + 4;
    lemma_links_at_prefix(d, s, o, c1, q1, c2, q2);
    let rest = c2.skip(c1.len() as int);
    if rest.len() > 0 {
        assert(quad_at(d, q1, o) != 0);
    }
    assert(rest.len() == 0);
    assert(c2.take(c1.len() as int) =~= c2);
    assert(q2 == q1);
}

/// No failing walk, and no longer walk, coexists with a complete chain.
pub proof fn lemma_chain_at_complete(
    d: Seq<u8>,
    s: int,
    o: ByteOrder,
    c: Seq<Seq<RawIFDEntry>>,
    end: int,
)
    requires
        chain_at(d, s, o, c, end),
    ensures
        !chain_read_fails(d, s, o),
        forall|c2: Seq<Seq<RawIFDEntry>>, q2: int|
            #[trigger] links_at(d, s, o, c2, q2) ==> c2.len() <= c.len(),
{
    let q = choose|q: int|
        #[trigger] links_at(d, s, o, c, q) && q + 4 <= d.len() && quad_at(d, q, o) == 0 && end == q
            + 4;
    assert forall|c2: Seq<Seq<RawIFDEntry>>, q2: int|
        #[trigger] links_at(d, s, o, c2, q2) implies c2.len() <= c.len() by {
        if c2.len() > c.len() {
            lemma_links_at_prefix(d, s, o, c, q, c2, q2);
            assert(links_at(d, q, o, c2.skip(c.len() as int), q2));
            assert(quad_at(d, q, o) != 0);
        }
    }
    assert forall|c2: Seq<Seq<RawIFDEntry>>, q2: int|
        #[trigger] links_at(d, s, o, c2, q2) implies !(q2 + 4 > d.len() || (quad_at(d, q2, o) != 0
        && dir_read_fails(d, quad_at(d, q2, o) as int, o))) by {
        lemma_links_at_prefix(d, s, o, c2, q2, c, q);
        let rest = c.skip(c2.len() as int);
        if rest.len() == 0 {
            assert(q2 == q);
        } else {
            assert(q2 + 4 <= d.len());
            assert(dir_matches(d, quad_at(d, q2, o) as int, o, rest[0]));
        }
    }
}

/// The exact bytes the writer lays down for `chain` when its first byte will
/// sit at absolute stream position `p`: each directory record, the patched
/// link after it, and a zero sentinel at the end (which for an empty chain is
/// all there is).
pub open spec fn chain_bytes(chain: Seq<Seq<RawIFDEntry>>, p: int, o: ByteOrder) -> Seq<u8>
    decreases chain.len(),
{
    if chain.len() == 0 {
        quad_bytes(0, o)
    } else {
        let db = dir_bytes(chain[0], o);
        let q = p + dir_size(chain[0].len() as int);
        if chain.len() == 1 {
            db + quad_bytes(0, o)
        } else {
            db + quad_bytes((q + 4) as u32, o) + chain_bytes(chain.drop_first(), q + 4, o)
        }
    }
}

/// The byte length of a written chain: 4 for the sentinel alone, else each
/// directory record plus its 4-byte link.
pub open spec fn chain_size(chain: Seq<Seq<RawIFDEntry>>) -> int
    decreases chain.len(),
{
    if chain.len() == 0 {
        4
    } else if chain.len() == 1 {
        dir_size(chain[0].len() as int) + 4
    } else {
        dir_size(chain[0].len() as int) + 4 + chain_size(chain.drop_first())
    }
}

pub proof fn lemma_chain_size_at_least_4(chain: Seq<Seq<RawIFDEntry>>)
    ensures
        chain_size(chain) >= 4,
    decreases chain.len(),
{
    if chain.len() > 1 {
        lemma_chain_size_at_least_4(chain.drop_first());
    }
}

pub proof fn lemma_chain_bytes_len(chain: Seq<Seq<RawIFDEntry>>, p: int, o: ByteOrder)
    ensures
        chain_bytes(chain, p, o).len() == chain_size(chain),
    decreases chain.len(),
{
    if chain.len() == 0 {
    } else {
        lemma_dir_bytes_len(chain[0], o);
        if chain.len() > 1 {
            lemma_chain_bytes_len(chain.drop_first(), p + dir_size(chain[0].len() as int) + 4, o);
        }
    }
}

/// A zero link is a complete empty chain, read in place with no seek.
pub proof fn lemma_zero_link_reads_empty(d: Seq<u8>, s: int, o: ByteOrder)
    requires
        0 <= s,
        s + 4 <= d.len(),
        quad_at(d, s, o) == 0,
    ensures
        chain_at(d, s, o, Seq::<Seq<RawIFDEntry>>::empty(), s + 4),
{
    assert(links_at(d, s, o, Seq::<Seq<RawIFDEntry>>::empty(), s));
}

/// Round trip: wherever the writer's exact image of `chain` sits at position
/// `p` of a stream, and the link at the read position `s` leads to it (for an
/// empty chain, `s` is the image itself: its zero sentinel), the whole chain
/// parses back, ending right after its final zero link. With
/// `lemma_chain_at_unique` and `lemma_chain_at_complete` this pins the
/// reader's result on a written stream to exactly the written chain.
pub proof fn lemma_chain_round_trip(
    d: Seq<u8>,
    s: int,
    p: int,
    chain: Seq<Seq<RawIFDEntry>>,
    o: ByteOrder,
)
    requires
        0 <= s,
        s + 4 <= d.len(),
        chain_fits(chain),
        0 <= p,
        p + chain_size(chain) <= d.len(),
        p + chain_size(chain) <= u32::MAX,
        d.subrange(p, p + chain_size(chain)) == chain_bytes(chain, p, o),
        chain.len() == 0 ==> s == p,
        chain.len() > 0 ==> quad_at(d, s, o) == p && p > 0,
    ensures
        chain_at(d, s, o, chain, p + chain_size(chain)),
    decreases chain.len(),
{
    let sz = chain_size(chain);
    let cb = chain_bytes(chain, p, o);
    lemma_chain_bytes_len(chain, p, o);
    if chain.len() == 0 {
        lemma_quad_round_trip(0, o);
        assert(d.subrange(p, p + 4)[0] == d[p]);
        assert(d.subrange(p, p + 4)[1] == d[p + 1]);
        assert(d.subrange(p, p + 4)[2] == d[p + 2]);
        assert(d.subrange(p, p + 4)[3] == d[p + 3]);
        assert(quad_at(d, p, o) == 0);
        assert(links_at(d, s, o, chain, s));
        assert(chain_at(d, s, o, chain, p + sz));
    } else {
        let dir = chain[0];
        let db = dir_bytes(dir, o);
        let sz0 = dir_size(dir.len() as int);
        let q = p + sz0;
        lemma_dir_bytes_len(dir, o);
        // the directory record's own bytes
        assert(cb.subrange(0, sz0) =~= db);
        d.lemma_slice_of_slice(p, p + sz, 0, sz0);
        assert(d.subrange(p, p + sz0) == db);
        lemma_dir_round_trip(d, p, o, dir);
        // the link field after it
        let link: u32 = if chain.len() == 1 {
            0u32
        } else {
            (q + 4) as u32
        };
        assert(cb.subrange(sz0, sz0 + 4) =~= quad_bytes(link, o)) by {
            if chain.len() > 1 {
                lemma_chain_bytes_len(chain.drop_first(), q + 4, o);
            }
        }
        d.lemma_slice_of_slice(p, p + sz, sz0, sz0 + 4);
        assert(d.subrange(q, q + 4) == quad_bytes(link, o));
        lemma_quad_round_trip(link, o);
        assert(d.subrange(q, q + 4)[0] == d[q]);
        assert(d.subrange(q, q + 4)[1] == d[q + 1]);
        assert(d.subrange(q, q + 4)[2] == d[q + 2]);
        assert(d.subrange(q, q + 4)[3] == d[q + 3]);
        assert(quad_at(d, q, o) == link);
        if chain.len() == 1 {
            assert(links_at(d, q, o, chain.drop_first(), q));
            assert(links_at(d, s, o, chain, q));
            assert(chain_at(d, s, o, chain, p + sz));
        } else {
            let rest = chain.drop_first();
            assert(chain_fits(rest)) by {
                assert(forall|j: int|
                    0 <= j < rest.len() ==> (#[trigger] rest[j]) == chain[j + 1]);
            }
            lemma_chain_bytes_len(rest, q + 4, o);
            assert(cb.subrange(sz0 + 4, sz) =~= chain_bytes(rest, q + 4, o));
            d.lemma_slice_of_slice(p, p + sz, sz0 + 4, sz);
            assert(d.subrange(q + 4, q + 4 + chain_size(rest)) == chain_bytes(rest, q + 4, o));
            assert(quad_at(d, q, o) == q + 4);
            lemma_chain_round_trip(d, q, q + 4, rest, o);
            let q2 = choose|qq: int|
                #[trigger] links_at(d, q, o, rest, qq) && qq + 4 <= d.len() && quad_at(d, qq, o)
                    == 0 && q + 4 + chain_size(rest) == qq + 4;
            assert(links_at(d, s, o, chain, q2));
            assert(chain_at(d, s, o, chain, p + sz));
        }
    }
}

/// The absolute position of directory `i`'s entry-count field in the
/// writer's image of `chain` at position `p`: directories sit back to back,
/// each followed by its 4-byte link.
pub open spec fn dir_start(chain: Seq<Seq<RawIFDEntry>>, p: int, i: int) -> int
    decreases i,
{
    if i <= 0 {
        p
    } else {
        dir_start(chain, p, i - 1) + dir_size(chain[i - 1].len() as int) + 4
    }
}

proof fn lemma_dir_start_shift(chain: Seq<Seq<RawIFDEntry>>, p: int, i: int)
    requires
        chain.len() > 0,
        1 <= i <= chain.len(),
    ensures
        dir_start(chain, p, i) == dir_start(
            chain.drop_first(),
            p + dir_size(chain[0].len() as int) + 4,
            i - 1,
        ),
    decreases i,
{
    let p2 = p + dir_size(chain[0].len() as int) + 4;
    let rest = chain.drop_first();
    if i == 1 {
        assert(dir_start(chain, p, 1) == dir_start(chain, p, 0) + dir_size(chain[0].len() as int)
            + 4);
        assert(dir_start(chain, p, 0) == p);
        assert(dir_start(rest, p2, 0) == p2);
    } else {
        lemma_dir_start_shift(chain, p, i - 1);
        assert(rest[i - 2] == chain[i - 1]);
        assert(dir_start(chain, p, i) == dir_start(chain, p, i - 1) + dir_size(
            chain[i - 1].len() as int,
        ) + 4);
        assert(dir_start(rest, p2, i - 1) == dir_start(rest, p2, i - 2) + dir_size(
            rest[i - 2].len() as int,
        ) + 4);
    }
}

/// Chain linkage: in the writer's image of a chain at position `p`, the link
/// following directory `i` holds the absolute start of directory `i + 1`'s
/// entry-count field, and the link following the last directory holds zero.
pub proof fn lemma_chain_linkage(
    d: Seq<u8>,
    p: int,
    chain: Seq<Seq<RawIFDEntry>>,
    o: ByteOrder,
    i: int,
)
    requires
        chain_fits(chain),
        0 <= p,
        p + chain_size(chain) <= d.len(),
        p + chain_size(chain) <= u32::MAX,
        d.subrange(p, p + chain_size(chain)) == chain_bytes(chain, p, o),
        0 <= i < chain.len(),
    ensures
        quad_at(d, dir_start(chain, p, i) + dir_size(chain[i].len() as int), o) == if i
            == chain.len() - 1 {
            0
        } else {
            dir_start(chain, p, i + 1)
        },
    decreases i,
{
    let sz = chain_size(chain);
    let cb = chain_bytes(chain, p, o);
    lemma_chain_bytes_len(chain, p, o);
    let dir = chain[0];
    let sz0 = dir_size(dir.len() as int);
    let q = p + sz0;
    lemma_dir_bytes_len(dir, o);
    let link: u32 = if chain.len() == 1 {
        0u32
    } else {
        (q + 4) as u32
    };
    assert(cb.subrange(sz0, sz0 + 4) =~= quad_bytes(link, o)) by {
        if chain.len() > 1 {
            lemma_chain_bytes_len(chain.drop_first(), q + 4, o);
        }
    }
    d.lemma_slice_of_slice(p, p + sz, sz0, sz0 + 4);
    assert(d.subrange(q, q + 4) == quad_bytes(link, o));
    lemma_quad_round_trip(link, o);
    assert(d.subrange(q, q + 4)[0] == d[q]);
    assert(d.subrange(q, q + 4)[1] == d[q + 1]);
    assert(d.subrange(q, q + 4)[2] == d[q + 2]);
    assert(d.subrange(q, q + 4)[3] == d[q + 3]);
    assert(quad_at(d, q, o) == link);
    if i == 0 {
        assert(dir_start(chain, p, 0) == p);
        if chain.len() > 1 {
            assert(dir_start(chain, p, 1) == q + 4);
        }
    } else {
        let rest = chain.drop_first();
        assert(chain_fits(rest)) by {
            assert(forall|j: int| 0 <= j < rest.len() ==> (#[trigger] rest[j]) == chain[j + 1]);
        }
        lemma_chain_bytes_len(rest, q + 4, o);
        assert(cb.subrange(sz0 + 4, sz) =~= chain_bytes(rest, q + 4, o));
        d.lemma_slice_of_slice(p, p + sz, sz0 + 4, sz);
        assert(d.subrange(q + 4, q + 4 + chain_size(rest)) == chain_bytes(rest, q + 4, o));
        lemma_chain_linkage(d, q + 4, rest, o, i - 1);
        lemma_dir_start_shift(chain, p, i);
        assert(rest[i - 1] == chain[i]);
        if i < chain.len() - 1 {
            lemma_dir_start_shift(chain, p, i + 1);
        }
    }
}

/// Follows the offset links from `*pos`, decoding one directory at each
/// named position, until a zero link ends the chain. On success `*pos` is
/// just past the zero sentinel. `Err(Truncated)` exactly reports a walk that
/// ran off the end of the stream. A walk that reads more directories than the
/// stream has bytes has revisited a link position and would never terminate
/// (the on-disk offsets form a cycle); it is cut off with
/// `Err(ChainTooLong)` rather than looping forever.
pub fn read_raw_ifds(data: &[u8], pos: &mut usize, o: ByteOrder) -> (r: Result<
    Vec<RawIFD>,
    IfdError,
>)
    ensures
        r is Ok ==> chain_at(data@, *old(pos) as int, o, ifds_view(r->Ok_0@), *final(pos) as int),
        r is Err ==> r->Err_0 == IfdError::Truncated || r->Err_0 == IfdError::ChainTooLong,
        r is Err && r->Err_0 == IfdError::Truncated ==> chain_read_fails(
            data@,
            *old(pos) as int,
            o,
        ),
        r is Err && r->Err_0 == IfdError::ChainTooLong ==> exists|
            c: Seq<Seq<RawIFDEntry>>,
            q: int,
        |
            #[trigger] links_at(data@, *old(pos) as int, o, c, q) && c.len() >= data@.len()
                && quad_at(data@, q, o) != 0,
        // success is owed: where a complete chain exists, the reader cannot
        // report truncation, and only a chain with at least as many
        // directories as the stream has bytes can be cut off as cyclic
        r is Err && r->Err_0 == IfdError::Truncated ==> forall|c: Seq<Seq<RawIFDEntry>>, end: int|
            !chain_at(data@, *old(pos) as int, o, c, end),
        r is Err && r->Err_0 == IfdError::ChainTooLong ==> forall|
            c: Seq<Seq<RawIFDEntry>>,
            end: int,
        |
            chain_at(data@, *old(pos) as int, o, c, end) ==> c.len() >= data@.len(),
{
    let n: usize = data.len();
    let mut ifds: Vec<RawIFD> = Vec::new();
    loop
        invariant
            n == data@.len(),
            links_at(data@, *old(pos) as int, o, ifds_view(ifds@), *pos as int),
            ifds@.len() <= n,
        decreases n - ifds@.len(),
    {
        if n < 4 || *pos > n - 4 {
            proof {
                assert(chain_read_fails(data@, *old(pos) as int, o));
                assert forall|c: Seq<Seq<RawIFDEntry>>, end: int| !(#[trigger] chain_at(
                    data@,
                    *old(pos) as int,
                    o,
                    c,
                    end,
                )) by {
                    if chain_at(data@, *old(pos) as int, o, c, end) {
                        lemma_chain_at_complete(data@, *old(pos) as int, o, c, end);
                    }
                }
            }
            return Err(IfdError::Truncated);
        }
        let off: u32 = get_u32_at(data, *pos, o);
        if off == 0 {
            *pos = *pos + 4;
            assert(chain_at(data@, *old(pos) as int, o, ifds_view(ifds@), *pos as int));
            return Ok(ifds);
        }
        if ifds.len() >= n {
            proof {
                assert(ifds_view(ifds@).len() >= n);
                assert forall|c: Seq<Seq<RawIFDEntry>>, end: int|
                    #[trigger] chain_at(data@, *old(pos) as int, o, c, end) implies c.len()
                    >= data@.len() by {
                    lemma_chain_at_complete(data@, *old(pos) as int, o, c, end);
                }
            }
            return Err(IfdError::ChainTooLong);
        }
        let ghost q = *pos as int;
        let ghost prev = ifds_view(ifds@);
        *pos = off as usize;
        match RawIFD::from_reader(data, pos, o) {
            Ok(ifd) => {
                proof {
                    lemma_links_at_push(data@, *old(pos) as int, o, prev, q, ifd@);
                    assert(ifds_view(ifds@.push(ifd)) =~= prev.push(ifd@));
                }
                ifds.push(ifd);
            },
            Err(_) => {
                proof {
                    assert(dir_read_fails(data@, off as int, o));
                    assert(chain_read_fails(data@, *old(pos) as int, o));
                    assert forall|c: Seq<Seq<RawIFDEntry>>, end: int| !(#[trigger] chain_at(
                        data@,
                        *old(pos) as int,
                        o,
                        c,
                        end,
                    )) by {
                        if chain_at(data@, *old(pos) as int, o, c, end) {
                            lemma_chain_at_complete(data@, *old(pos) as int, o, c, end);
                        }
                    }
                }
                return Err(IfdError::Truncated);
            },
        }
    }
}

/// Writes the whole chain at the end of `out`: each directory back to back,
/// every link patched to the position right after itself (where the next
/// directory starts), and a zero sentinel after the last directory — which,
/// for an empty chain, is the only thing written. A directory with more
/// entries than fit a 16-bit count is a caller contract breach: nothing is
/// written and `Err(TooManyEntries)` comes back. The stream must stay small
/// enough for every link to fit its 4 bytes.
pub fn write_raw_ifds(out: &mut Vec<u8>, ifds: &[RawIFD], o: ByteOrder) -> (r: Result<
    (),
    IfdError,
>)
    requires
        old(out)@.len() + chain_size(ifds_view(ifds@)) <= u32::MAX,
    ensures
        chain_fits(ifds_view(ifds@)) ==> r is Ok && final(out)@ == old(out)@ + chain_bytes(
            ifds_view(ifds@),
            old(out)@.len() as int,
            o,
        ),
        !chain_fits(ifds_view(ifds@)) ==> r is Err && r->Err_0 == IfdError::TooManyEntries
            && final(out)@ == old(out)@,
{
    let ghost cv = ifds_view(ifds@);
    let m: usize = ifds.len();
    let mut k: usize = 0;
    while k < m
        invariant
            m == ifds@.len(),
            cv == ifds_view(ifds@),
            k <= m,
            forall|j: int| 0 <= j < k ==> (#[trigger] cv[j]).len() <= MAX_ENTRY_COUNT,
        decreases m - k,
    {
        if ifds[k].0.len() > MAX_ENTRY_COUNT {
            assert(cv[k as int].len() > MAX_ENTRY_COUNT);
            assert(!chain_fits(cv));
            return Err(IfdError::TooManyEntries);
        }
        k = k + 1;
    }
    assert(chain_fits(cv));
    if m == 0 {
        put_u32(out, 0, o);
        return Ok(());
    }
    let ghost base = old(out)@.len() as int;
    proof {
        assert(cv.skip(0) =~= cv);
    }
    let mut i: usize = 0;
    while i < m
        invariant
            m == ifds@.len(),
            0 < m,
            cv == ifds_view(ifds@),
            cv.len() == m,
            chain_fits(cv),
            i <= m,
            base == old(out)@.len(),
            old(out)@.len() + chain_size(cv) <= u32::MAX,
            i < m ==> out@ + chain_bytes(cv.skip(i as int), out@.len() as int, o) == old(out)@
                + chain_bytes(cv, base, o),
            i == m ==> out@ == old(out)@ + chain_bytes(cv, base, o),
        decreases m - i,
    {
        let ghost suffix = cv.skip(i as int);
        let ghost cur = out@.len() as int;
        proof {
            assert(suffix[0] == cv[i as int]);
            lemma_chain_bytes_len(cv, base, o);
            lemma_chain_bytes_len(suffix, cur, o);
            assert(cur + chain_size(suffix) == base + chain_size(cv)) by {
                assert((out@ + chain_bytes(suffix, cur, o)).len() == (old(out)@ + chain_bytes(
                    cv,
                    base,
                    o,
                )).len());
            }
        }
        let r = ifds[i].to_writer(out, o);
        proof {
            assert(cv[i as int].len() <= MAX_ENTRY_COUNT);
            lemma_dir_bytes_len(cv[i as int], o);
        }
        match r {
            Ok(()) => {},
            Err(e) => {
                // unreachable: every directory was checked to fit above
                proof {
                    assert(false);
                }
                return Err(e);
            },
        }
        if i + 1 < m {
            proof {
                assert(cv.skip(i as int).drop_first() =~= cv.skip(i + 1));
                lemma_chain_size_at_least_4(cv.skip(i + 1));
                assert(out@.len() + 4 <= u32::MAX);
            }
            let link: u32 = (out.len() as u32) + 4;
            put_u32(out, link, o);
            proof {
                assert(chain_bytes(suffix, cur, o) == dir_bytes(suffix[0], o) + quad_bytes(
                    link,
                    o,
                ) + chain_bytes(cv.skip(i + 1), out@.len() as int, o));
                assert(out@ + chain_bytes(cv.skip(i + 1), out@.len() as int, o) =~= old(out)@
                    + chain_bytes(cv, base, o));
            }
        } else {
            proof {
                assert(suffix.len() == 1);
            }
            put_u32(out, 0, o);
            proof {
                assert(chain_bytes(suffix, cur, o) == dir_bytes(suffix[0], o) + quad_bytes(0, o));
                assert(out@ =~= old(out)@ + chain_bytes(cv, base, o));
            }
        }
        i = i + 1;
    }
    Ok(())
}

} // verus!
