//! The triple tile: one physical block of a permutation, holding id triples in
//! the permutation's column order `(a, b, c)`, strictly ascending.
//!
//! A tile is written as its triple count followed by each triple's three
//! columns, every number as a shortest-form varint.
use vstd::prelude::*;

use crate::varint::{
    lemma_read_canonical_write, read_canonical_at, spec_read_canonical, uvarint_bytes, write_uvarint,
};

verus! {

/// An id triple in some column order.
pub type Triple = (u32, u32, u32);

/// Lexicographic order on triples.
pub open spec fn triple_lt(x: Triple, y: Triple) -> bool {
    x.0 < y.0 || (x.0 == y.0 && (x.1 < y.1 || (x.1 == y.1 && x.2 < y.2)))
}

/// Strictly ascending, hence free of duplicates.
pub open spec fn sorted_triples(ts: Seq<Triple>) -> bool {
    forall|i: int, j: int| 0 <= i < j < ts.len() ==> triple_lt(#[trigger] ts[i], #[trigger] ts[j])
}

/// A tile holds at least one triple, in ascending order.
pub open spec fn tile_wf(ts: Seq<Triple>) -> bool {
    ts.len() > 0 && sorted_triples(ts)
}

/// The bytes of one triple.
pub open spec fn triple_bytes(t: Triple) -> Seq<u8> {
    uvarint_bytes(t.0 as nat) + uvarint_bytes(t.1 as nat) + uvarint_bytes(t.2 as nat)
}

/// The bytes of a run of triples.
pub open spec fn triples_bytes(ts: Seq<Triple>) -> Seq<u8>
    decreases ts.len(),
{
    if ts.len() == 0 {
        seq![]
    } else {
        triples_bytes(ts.drop_last()) + triple_bytes(ts.last())
    }
}

/// The bytes of a whole tile.
pub open spec fn tile_bytes(ts: Seq<Triple>) -> Seq<u8> {
    uvarint_bytes(ts.len()) + triples_bytes(ts)
}

/// The encoding of the first `i + 1` triples extends that of the first `i`
/// by triple `i`, and every such prefix encoding is a prefix of the whole.
pub proof fn lemma_triples_prefix(ts: Seq<Triple>, i: int)
    requires
        0 <= i <= ts.len(),
    ensures
        triples_bytes(ts.take(i)).len() <= triples_bytes(ts).len(),
        triples_bytes(ts).subrange(0, triples_bytes(ts.take(i)).len() as int) == triples_bytes(
            ts.take(i),
        ),
        i < ts.len() ==> triples_bytes(ts.take(i + 1)) == triples_bytes(ts.take(i)) + triple_bytes(
            ts[i],
        ),
    decreases ts.len(),
{
    if i < ts.len() {
        assert(ts.take(i + 1).drop_last() =~= ts.take(i));
    }
    if i == ts.len() {
        assert(ts.take(i) =~= ts);
    } else {
        lemma_triples_prefix(ts.drop_last(), i);
        assert(ts.drop_last().take(i) =~= ts.take(i));
    }
}

/// Each triple takes at least three bytes.
pub proof fn lemma_triples_len(ts: Seq<Triple>)
    ensures
        triples_bytes(ts).len() >= 3 * ts.len(),
    decreases ts.len(),
{
    if ts.len() > 0 {
        lemma_triples_len(ts.drop_last());
        let t = ts.last();
        crate::varint::lemma_read_write_uvarint(t.0 as u64, seq![]);
        crate::varint::lemma_read_write_uvarint(t.1 as u64, seq![]);
        crate::varint::lemma_read_write_uvarint(t.2 as u64, seq![]);
    }
}

/// The encoding of a non-empty run starts with its first triple.
pub proof fn lemma_triples_front(ts: Seq<Triple>)
    requires
        ts.len() > 0,
    ensures
        triples_bytes(ts) == triple_bytes(ts[0]) + triples_bytes(ts.drop_first()),
    decreases ts.len(),
{
    if ts.len() == 1 {
        assert(ts.drop_last().len() == 0);
        assert(ts.drop_first().len() == 0);
        assert(triples_bytes(ts.drop_last()) =~= Seq::<u8>::empty());
        assert(triples_bytes(ts.drop_first()) =~= Seq::<u8>::empty());
        assert(ts.last() == ts[0]);
        assert(triples_bytes(ts) =~= triple_bytes(ts[0]) + triples_bytes(ts.drop_first()));
    } else {
        lemma_triples_front(ts.drop_last());
        assert(ts.drop_last().drop_first() =~= ts.drop_first().drop_last());
        assert(ts.drop_last()[0] == ts[0]);
        assert(ts.drop_first().last() == ts.last());
        assert(triples_bytes(ts.drop_first()) == triples_bytes(ts.drop_first().drop_last())
            + triple_bytes(ts.drop_first().last()));
        assert(triples_bytes(ts) =~= triple_bytes(ts[0]) + triples_bytes(ts.drop_first()));
    }
}

/// Two triples whose encodings start two byte strings that agree are the
/// same triple.
pub proof fn lemma_triple_bytes_unique(t: Triple, u: Triple, x: Seq<u8>, y: Seq<u8>)
    requires
        triple_bytes(t) + x == triple_bytes(u) + y,
    ensures
        t == u,
        x == y,
{
    let s = triple_bytes(t) + x;
    assert(s.subrange(0, triple_bytes(t).len() as int) =~= triple_bytes(t));
    assert(s.subrange(0, triple_bytes(u).len() as int) =~= triple_bytes(u));
    lemma_triple_reads(s, 0, t);
    lemma_triple_reads(s, 0, u);
    assert(s.skip(0) =~= s);
    assert(triple_bytes(t).len() == triple_bytes(u).len());
    assert(x =~= s.skip(triple_bytes(t).len() as int));
    assert(y =~= s.skip(triple_bytes(u).len() as int));
}

/// Runs of triples with the same encoding and length are the same run.
pub proof fn lemma_triples_bytes_unique(v: Seq<Triple>, w: Seq<Triple>)
    requires
        v.len() == w.len(),
        triples_bytes(v) == triples_bytes(w),
    ensures
        v == w,
    decreases v.len(),
{
    if v.len() > 0 {
        lemma_triples_front(v);
        lemma_triples_front(w);
        lemma_triple_bytes_unique(v[0], w[0], triples_bytes(v.drop_first()), triples_bytes(w.drop_first()));
        lemma_triples_bytes_unique(v.drop_first(), w.drop_first());
        assert(v =~= seq![v[0]] + v.drop_first());
        assert(w =~= seq![w[0]] + w.drop_first());
    } else {
        assert(v =~= w);
    }
}

/// A tile's bytes determine its triples.
pub proof fn lemma_tile_bytes_unique(v: Seq<Triple>, w: Seq<Triple>)
    requires
        tile_bytes(v) == tile_bytes(w),
    ensures
        v == w,
{
    let s = tile_bytes(v);
    crate::varint::lemma_uvarint_prefix_unique(v.len(), w.len(), triples_bytes(v), triples_bytes(w));
    assert(v.len() == w.len());
    assert(triples_bytes(v) =~= s.skip(uvarint_bytes(v.len()).len() as int));
    assert(triples_bytes(w) =~= s.skip(uvarint_bytes(w.len()).len() as int));
    lemma_triples_bytes_unique(v, w);
}

/// Append the encoding of one triple.
fn write_triple(out: &mut Vec<u8>, t: Triple)
    ensures
        final(out)@ == old(out)@ + triple_bytes(t),
{
    write_uvarint(out, t.0 as u64);
    write_uvarint(out, t.1 as u64);
    write_uvarint(out, t.2 as u64);
    proof {
        assert(final(out)@ =~= old(out)@ + triple_bytes(t));
    }
}

/// Encode a tile.
pub fn encode_tile(ts: &Vec<Triple>) -> (r: Vec<u8>)
    ensures
        r@ == tile_bytes(ts@),
{
    let mut out: Vec<u8> = Vec::new();
    write_uvarint(&mut out, ts.len() as u64);
    let n = ts.len();
    let mut i: usize = 0;
    while i < n
        invariant
            n == ts@.len(),
            i <= n,
            out@ == uvarint_bytes(n as nat) + triples_bytes(ts@.take(i as int)),
        decreases n - i,
    {
        proof {
            lemma_triples_prefix(ts@, i as int);
        }
        write_triple(&mut out, ts[i]);
        i = i + 1;
    }
    proof {
        assert(ts@.take(n as int) =~= ts@);
    }
    out
}

/// What a strict reader gets for one `u32` column at the front of `s`.
pub open spec fn spec_read_u32(s: Seq<u8>) -> Option<(u32, nat)> {
    match spec_read_canonical(s) {
        Some((v, n)) => if v <= u32::MAX {
            Some((v as u32, n))
        } else {
            None
        },
        None => None,
    }
}

/// Read one shortest-form `u32` at `pos`.
pub fn read_u32_at(bytes: &[u8], pos: usize) -> (r: Option<(u32, usize)>)
    ensures
        pos <= bytes@.len() ==> match spec_read_u32(bytes@.skip(pos as int)) {
            Some((v, n)) => r == Some((v, n as usize)),
            None => r is None,
        },
        pos > bytes@.len() ==> r is None,
        r matches Some((v, n)) ==> 1 <= n <= 10 && pos + n <= bytes@.len() && bytes@.subrange(
            pos as int,
            pos + n,
        ) == uvarint_bytes(v as nat),
{
    match read_canonical_at(bytes, pos) {
        Some((v, n)) => if v <= 0xffff_ffff {
            Some((v as u32, n))
        } else {
            None
        },
        None => None,
    }
}

/// Reading a column back from its encoding gives the column.
proof fn lemma_read_u32_write(v: u32, rest: Seq<u8>)
    ensures
        spec_read_u32(uvarint_bytes(v as nat) + rest) == Some((v, uvarint_bytes(v as nat).len())),
{
    lemma_read_canonical_write(v as u64, rest);
}

/// The three columns of a triple read back from its encoding.
proof fn lemma_triple_reads(bytes: Seq<u8>, pos: int, t: Triple)
    requires
        0 <= pos,
        pos + triple_bytes(t).len() <= bytes.len(),
        bytes.subrange(pos, pos + triple_bytes(t).len()) == triple_bytes(t),
    ensures
        spec_read_u32(bytes.skip(pos)) == Some((t.0, uvarint_bytes(t.0 as nat).len())),
        spec_read_u32(bytes.skip(pos + uvarint_bytes(t.0 as nat).len())) == Some(
            (t.1, uvarint_bytes(t.1 as nat).len()),
        ),
        spec_read_u32(
            bytes.skip(pos + uvarint_bytes(t.0 as nat).len() + uvarint_bytes(t.1 as nat).len()),
        ) == Some((t.2, uvarint_bytes(t.2 as nat).len())),
{
    let e0 = uvarint_bytes(t.0 as nat);
    let e1 = uvarint_bytes(t.1 as nat);
    let e2 = uvarint_bytes(t.2 as nat);
    let rest = bytes.skip(pos + triple_bytes(t).len());
    assert(bytes.skip(pos) =~= e0 + (e1 + e2 + rest));
    lemma_read_u32_write(t.0, e1 + e2 + rest);
    assert(bytes.skip(pos + e0.len()) =~= bytes.skip(pos).skip(e0.len() as int));
    assert((e0 + (e1 + e2 + rest)).skip(e0.len() as int) =~= e1 + (e2 + rest));
    lemma_read_u32_write(t.1, e2 + rest);
    assert(bytes.skip(pos + e0.len() + e1.len()) =~= bytes.skip(pos).skip((e0.len() + e1.len()) as int));
    assert((e0 + (e1 + e2 + rest)).skip((e0.len() + e1.len()) as int) =~= e2 + rest);
    lemma_read_u32_write(t.2, rest);
}

/// Read one triple at `pos`: the triple and the position after it.
fn read_triple_at(bytes: &[u8], pos: usize) -> (r: Option<(Triple, usize)>)
    requires
        pos <= bytes@.len(),
    ensures
        r matches Some((t, end)) ==> pos < end <= bytes@.len() && bytes@.subrange(pos as int, end as int)
            == triple_bytes(t),
        forall|t: Triple|
            pos + triple_bytes(t).len() <= bytes@.len() && bytes@.subrange(
                pos as int,
                pos + triple_bytes(t).len(),
            ) == #[trigger] triple_bytes(t) ==> (r matches Some((u, end)) && u == t && end == pos
                + triple_bytes(t).len()),
{
    let blen = bytes.len();
    proof {
        assert forall|t: Triple|
            pos + triple_bytes(t).len() <= bytes@.len() && bytes@.subrange(
                pos as int,
                pos + triple_bytes(t).len(),
            ) == #[trigger] triple_bytes(t) implies {
            &&& spec_read_u32(bytes@.skip(pos as int)) == Some((t.0, uvarint_bytes(t.0 as nat).len()))
            &&& spec_read_u32(bytes@.skip(pos + uvarint_bytes(t.0 as nat).len())) == Some(
                (t.1, uvarint_bytes(t.1 as nat).len()),
            )
            &&& spec_read_u32(
                bytes@.skip(
                    pos + uvarint_bytes(t.0 as nat).len() + uvarint_bytes(t.1 as nat).len(),
                ),
            ) == Some((t.2, uvarint_bytes(t.2 as nat).len()))
        } by {
            lemma_triple_reads(bytes@, pos as int, t);
        }
    }
    let (a, n0) = match read_u32_at(bytes, pos) {
        Some(x) => x,
        None => return None,
    };
    let p1 = pos + n0;
    let (b, n1) = match read_u32_at(bytes, p1) {
        Some(x) => x,
        None => return None,
    };
    let p2 = p1 + n1;
    let (c, n2) = match read_u32_at(bytes, p2) {
        Some(x) => x,
        None => return None,
    };
    let end = p2 + n2;
    proof {
        assert(bytes@.subrange(pos as int, end as int) =~= bytes@.subrange(pos as int, p1 as int)
            + bytes@.subrange(p1 as int, p2 as int) + bytes@.subrange(p2 as int, end as int));
    }
    Some(((a, b, c), end))
}

/// Number of bytes one triple's encoding takes.
pub fn triple_len(t: Triple) -> (r: u64)
    ensures
        r == triple_bytes(t).len(),
        r <= 30,
{
    crate::varint::uvarint_len(t.0 as u64) + crate::varint::uvarint_len(t.1 as u64)
        + crate::varint::uvarint_len(t.2 as u64)
}

/// Whether `x` sorts strictly before `y`.
pub fn triple_less(x: Triple, y: Triple) -> (r: bool)
    ensures
        r == triple_lt(x, y),
{
    x.0 < y.0 || (x.0 == y.0 && (x.1 < y.1 || (x.1 == y.1 && x.2 < y.2)))
}

/// Whether two triples are equal.
pub fn triple_eq(x: Triple, y: Triple) -> (r: bool)
    ensures
        r == (x == y),
{
    x.0 == y.0 && x.1 == y.1 && x.2 == y.2
}

/// Decode a tile: its triples, when `bytes` is exactly the encoding of a
/// non-empty ascending run of triples.
pub fn decode_tile(bytes: &[u8]) -> (r: Option<Vec<Triple>>)
    ensures
        r matches Some(v) ==> tile_wf(v@) && tile_bytes(v@) == bytes@,
        forall|v: Seq<Triple>| tile_wf(v) && #[trigger] tile_bytes(v) == bytes@ ==> (r matches Some(w)
            && w@ == v),
{
    let blen = bytes.len();
    let (n, p0) = match read_canonical_at(bytes, 0) {
        Some(x) => x,
        None => {
            proof {
                assert forall|v: Seq<Triple>| tile_wf(v) && #[trigger] tile_bytes(v) == bytes@
                    implies false by {
                    lemma_triples_len(v);
                    assert(bytes@.skip(0) =~= uvarint_bytes(v.len()) + triples_bytes(v));
                    lemma_read_canonical_write(v.len() as u64, triples_bytes(v));
                }
            }
            return None;
        },
    };
    proof {
        assert forall|v: Seq<Triple>| tile_wf(v) && #[trigger] tile_bytes(v) == bytes@ implies v.len()
            == n && p0 == uvarint_bytes(v.len()).len() by {
            lemma_triples_len(v);
            assert(bytes@.skip(0) =~= uvarint_bytes(v.len()) + triples_bytes(v));
            lemma_read_canonical_write(v.len() as u64, triples_bytes(v));
        }
    }
    if n == 0 {
        return None;
    }
    let mut out: Vec<Triple> = Vec::new();
    let mut pos = p0;
    let mut i: u64 = 0;
    while i < n
        invariant
            p0 <= pos <= bytes@.len(),
            i <= n,
            out@.len() == i,
            bytes@.subrange(0, p0 as int) == uvarint_bytes(n as nat),
            bytes@.subrange(p0 as int, pos as int) == triples_bytes(out@),
            sorted_triples(out@),
            forall|v: Seq<Triple>| tile_wf(v) && #[trigger] tile_bytes(v) == bytes@ ==> v.len() == n
                && p0 == uvarint_bytes(v.len()).len() && out@ == v.take(i as int),
        decreases n - i,
    {
        let ghost old_out = out@;
        proof {
            assert forall|v: Seq<Triple>| tile_wf(v) && #[trigger] tile_bytes(v) == bytes@ implies
                pos + triple_bytes(v[i as int]).len() <= bytes@.len() && bytes@.subrange(
                pos as int,
                pos + triple_bytes(v[i as int]).len(),
            ) == triple_bytes(v[i as int]) by {
                lemma_triples_prefix(v, i as int);
                lemma_triples_prefix(v, i + 1);
                let pre = triples_bytes(v.take(i + 1));
                assert(triples_bytes(v).subrange(0, pre.len() as int) == pre);
                assert(bytes@ =~= uvarint_bytes(n as nat) + triples_bytes(v));
                assert(bytes@.subrange(pos as int, pos + triple_bytes(v[i as int]).len()) =~= pre.subrange(
                    triples_bytes(v.take(i as int)).len() as int,
                    pre.len() as int,
                ));
            }
        }
        let (t, end) = match read_triple_at(bytes, pos) {
            Some(x) => x,
            None => {
                proof {
                    assert forall|v: Seq<Triple>| tile_wf(v) && #[trigger] tile_bytes(v) == bytes@
                        implies false by {
                        assert(bytes@.subrange(pos as int, pos + triple_bytes(v[i as int]).len())
                            == triple_bytes(v[i as int]));
                    }
                }
                return None;
            },
        };
        proof {
            assert forall|v: Seq<Triple>| tile_wf(v) && #[trigger] tile_bytes(v) == bytes@ implies t
                == v[i as int] by {
                assert(bytes@.subrange(pos as int, pos + triple_bytes(v[i as int]).len())
                    == triple_bytes(v[i as int]));
            }
        }
        if i > 0 && !triple_less(out[out.len() - 1], t) {
            proof {
                assert forall|v: Seq<Triple>| tile_wf(v) && #[trigger] tile_bytes(v) == bytes@
                    implies false by {
                    assert(out@[i - 1] == v.take(i as int)[i - 1]);
                    assert(triple_lt(v[i - 1], v[i as int]));
                }
            }
            return None;
        }
        out.push(t);
        proof {
            assert(out@.drop_last() =~= old_out);
            assert(bytes@.subrange(p0 as int, end as int) =~= bytes@.subrange(p0 as int, pos as int)
                + bytes@.subrange(pos as int, end as int));
            assert forall|v: Seq<Triple>| tile_wf(v) && #[trigger] tile_bytes(v) == bytes@ implies out@
                == v.take(i + 1) by {
                assert(out@ =~= v.take(i + 1));
            }
        }
        pos = end;
        i = i + 1;
    }
    if pos != bytes.len() {
        proof {
            assert forall|v: Seq<Triple>| tile_wf(v) && #[trigger] tile_bytes(v) == bytes@ implies false by {
                assert(v.take(n as int) =~= v);
                assert(bytes@.subrange(p0 as int, pos as int).len() == pos - p0);
            }
        }
        return None;
    }
    proof {
        assert(bytes@ =~= bytes@.subrange(0, p0 as int) + bytes@.subrange(p0 as int, pos as int));
        assert(out@.len() == n);
        assert forall|v: Seq<Triple>| tile_wf(v) && #[trigger] tile_bytes(v) == bytes@ implies out@
            == v by {
            assert(v.take(n as int) =~= v);
        }
    }
    Some(out)
}

} // verus!
