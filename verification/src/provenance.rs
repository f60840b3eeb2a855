//! Why a match is in a file: the byte ranges of the sections and of the
//! tile a matched triple was read from.
use vstd::prelude::*;

use crate::dict::Dictionary;
use crate::image::ByteRange;
use crate::index::{index_matches, permute, route, route_slot, Pattern};
use crate::rete::{opt_bytes, pattern_for, resolve_query_pattern, term_triple, unresolvable, Rete, TermTriple};
use crate::tile::Triple;

verus! {

/// One of the six column orders of the index, by slot.
#[derive(Clone, Copy, Debug, PartialEq, Eq, Structural)]
pub enum IndexPermutation {
    Spo,
    Pos,
    Osp,
    Sop,
    Pso,
    Ops,
}

/// The slot of a permutation.
pub open spec fn perm_slot(p: IndexPermutation) -> int {
    match p {
        IndexPermutation::Spo => 0,
        IndexPermutation::Pos => 1,
        IndexPermutation::Osp => 2,
        IndexPermutation::Sop => 3,
        IndexPermutation::Pso => 4,
        IndexPermutation::Ops => 5,
    }
}

impl IndexPermutation {
    /// The permutation of slot `k`, for `k` below 6.
    pub fn from_section_index(k: usize) -> (r: Option<IndexPermutation>)
        ensures
            k < 6 <==> r is Some,
            r matches Some(p) ==> perm_slot(p) == k,
    {
        if k == 0 {
            Some(IndexPermutation::Spo)
        } else if k == 1 {
            Some(IndexPermutation::Pos)
        } else if k == 2 {
            Some(IndexPermutation::Osp)
        } else if k == 3 {
            Some(IndexPermutation::Sop)
        } else if k == 4 {
            Some(IndexPermutation::Pso)
        } else if k == 5 {
            Some(IndexPermutation::Ops)
        } else {
            None
        }
    }

    /// The slot of this permutation in an index.
    pub fn section_index(self) -> (r: usize)
        ensures
            r == perm_slot(self),
    {
        match self {
            IndexPermutation::Spo => 0,
            IndexPermutation::Pos => 1,
            IndexPermutation::Osp => 2,
            IndexPermutation::Sop => 3,
            IndexPermutation::Pso => 4,
            IndexPermutation::Ops => 5,
        }
    }

    /// The permutation's name as ASCII bytes: its three columns, such as
    /// `SPO`.
    pub fn name_bytes(self) -> (r: Vec<u8>)
        ensures
            r@ == perm_name(perm_slot(self)),
    {
        match self {
            IndexPermutation::Spo => vec![83u8, 80u8, 79u8],
            IndexPermutation::Pos => vec![80u8, 79u8, 83u8],
            IndexPermutation::Osp => vec![79u8, 83u8, 80u8],
            IndexPermutation::Sop => vec![83u8, 79u8, 80u8],
            IndexPermutation::Pso => vec![80u8, 83u8, 79u8],
            IndexPermutation::Ops => vec![79u8, 80u8, 83u8],
        }
    }
}

/// The ASCII name of slot `k`: `S`, `P` and `O` in its column order.
pub open spec fn perm_name(k: int) -> Seq<u8> {
    if k == 0 {
        seq![83u8, 80u8, 79u8]
    } else if k == 1 {
        seq![80u8, 79u8, 83u8]
    } else if k == 2 {
        seq![79u8, 83u8, 80u8]
    } else if k == 3 {
        seq![83u8, 79u8, 80u8]
    } else if k == 4 {
        seq![80u8, 83u8, 79u8]
    } else {
        seq![79u8, 80u8, 83u8]
    }
}

/// The decimal digits of `n`, in ASCII, most significant first.
pub open spec fn decimal_digits(n: nat) -> Seq<u8>
    decreases n,
{
    if n < 10 {
        seq![(48 + n) as u8]
    } else {
        decimal_digits(n / 10).push((48 + n % 10) as u8)
    }
}

/// Append the decimal digits of `n`.
pub fn push_decimal(out: &mut Vec<u8>, n: u64)
    ensures
        final(out)@ == old(out)@ + decimal_digits(n as nat),
    decreases n,
{
    if n < 10 {
        out.push(48u8 + n as u8);
    } else {
        push_decimal(out, n / 10);
        out.push(48u8 + (n % 10) as u8);
        proof {
            assert(old(out)@ + decimal_digits((n / 10) as nat) + seq![(48 + n % 10) as u8] =~= old(out)@
                + decimal_digits(n as nat));
        }
    }
}

/// The position bisection lands on among `tiles[lo..hi]`: the first whose
/// largest leading id is not below `a`, when their largest leading ids
/// ascend.
pub open spec fn bisect(tiles: Seq<(u32, u32, ByteRange)>, a: u32, lo: int, hi: int) -> int
    decreases hi - lo,
{
    if lo >= hi {
        lo
    } else {
        let mid = lo + (hi - lo) / 2;
        if tiles[mid].1 < a {
            bisect(tiles, a, mid + 1, hi)
        } else {
            bisect(tiles, a, lo, mid)
        }
    }
}

/// Bisection stays within its bounds.
pub proof fn lemma_bisect_bounds(tiles: Seq<(u32, u32, ByteRange)>, a: u32, lo: int, hi: int)
    requires
        lo <= hi,
    ensures
        lo <= bisect(tiles, a, lo, hi) <= hi,
    decreases hi - lo,
{
    if lo < hi {
        let mid = lo + (hi - lo) / 2;
        if tiles[mid].1 < a {
            lemma_bisect_bounds(tiles, a, mid + 1, hi);
        } else {
            lemma_bisect_bounds(tiles, a, lo, mid);
        }
    }
}

/// On tiles whose largest leading ids ascend, bisection finds the first
/// tile whose largest leading id reaches `a`.
pub proof fn lemma_bisect_first(tiles: Seq<(u32, u32, ByteRange)>, a: u32, lo: int, hi: int)
    requires
        0 <= lo <= hi <= tiles.len(),
        forall|i: int, j: int| lo <= i <= j < hi ==> #[trigger] tiles[i].1 <= #[trigger] tiles[j].1,
    ensures
        forall|i: int| lo <= i < bisect(tiles, a, lo, hi) ==> #[trigger] tiles[i].1 < a,
        bisect(tiles, a, lo, hi) < hi ==> tiles[bisect(tiles, a, lo, hi)].1 >= a,
    decreases hi - lo,
{
    if lo < hi {
        let mid = lo + (hi - lo) / 2;
        if tiles[mid].1 < a {
            lemma_bisect_first(tiles, a, mid + 1, hi);
            lemma_bisect_bounds(tiles, a, mid + 1, hi);
        } else {
            lemma_bisect_first(tiles, a, lo, mid);
            lemma_bisect_bounds(tiles, a, lo, mid);
        }
    }
}

/// The position of the tile that can hold leading id `a`: bisection over
/// the tiles' largest leading ids.
pub fn tile_partition_point(tiles: &Vec<(u32, u32, ByteRange)>, a: u32) -> (r: usize)
    ensures
        r == bisect(tiles@, a, 0, tiles@.len() as int),
        r <= tiles@.len(),
{
    let mut lo: usize = 0;
    let mut hi: usize = tiles.len();
    proof {
        lemma_bisect_bounds(tiles@, a, 0, tiles@.len() as int);
    }
    while lo < hi
        invariant
            lo <= hi <= tiles@.len(),
            bisect(tiles@, a, lo as int, hi as int) == bisect(tiles@, a, 0, tiles@.len() as int),
        decreases hi - lo,
    {
        let mid = lo + (hi - lo) / 2;
        if tiles[mid].1 < a {
            lo = mid + 1;
        } else {
            hi = mid;
        }
    }
    lo
}

/// Why a triple-pattern result is present in the file.
#[derive(Debug)]
pub struct TripleProvenance {
    /// The matched triple's terms.
    pub terms: TermTriple,
    /// The matched triple's ids.
    pub ids: Triple,
    /// The named graph, or `None` for the default graph.
    pub graph: Option<Vec<u8>>,
    /// The resolved pattern that was matched.
    pub matched_pattern: Pattern,
    /// The permutation chosen to answer the pattern.
    pub index_permutation: IndexPermutation,
    /// Where the dictionary container lies in the file.
    pub dictionary_range: ByteRange,
    /// Where the index container lies in the file.
    pub index_range: ByteRange,
    /// Where the chosen permutation's payload lies in the file.
    pub index_section_range: ByteRange,
    /// Where the pyramid section lies, when there is one.
    pub pyramid_range: Option<ByteRange>,
    /// The tile holding the match, as `PERM/position` (such as `POS/3`).
    pub tile: Option<Vec<u8>>,
    /// Where that tile lies in the file.
    pub tile_range: Option<ByteRange>,
}

/// A provenance record as plain values.
pub type ProvenanceView = (
    (Seq<u8>, Seq<u8>, Seq<u8>),
    Triple,
    Option<Seq<u8>>,
    Pattern,
    int,
    ByteRange,
    ByteRange,
    ByteRange,
    Option<ByteRange>,
    Option<Seq<u8>>,
    Option<ByteRange>,
);

/// A provenance record as plain values.
pub open spec fn provenance_view(p: TripleProvenance) -> ProvenanceView {
    (
        (p.terms.0@, p.terms.1@, p.terms.2@),
        p.ids,
        match p.graph {
            Some(g) => Some(g@),
            None => None,
        },
        p.matched_pattern,
        perm_slot(p.index_permutation),
        p.dictionary_range,
        p.index_range,
        p.index_section_range,
        p.pyramid_range,
        match p.tile {
            Some(t) => Some(t@),
            None => None,
        },
        p.tile_range,
    )
}

/// The label of tile `i` of slot `k`: the permutation's name, a slash and
/// the position.
pub open spec fn tile_label(k: int, i: nat) -> Seq<u8> {
    perm_name(k) + seq![47u8] + decimal_digits(i)
}

/// The provenance of match `t`, named by `terms`, of pattern `pat` routed
/// to slot `k` of an opened file `r`.
pub open spec fn provenance_of(
    r: Rete,
    pat: Pattern,
    k: int,
    t: Triple,
    terms: (Seq<u8>, Seq<u8>, Seq<u8>),
) -> ProvenanceView {
    let tiles = r.tile_ranges@[k]@;
    let a = permute(k, t).0;
    let i = bisect(tiles, a, 0, tiles.len() as int);
    let found = i < tiles.len() && tiles[i].0 <= a;
    (
        terms,
        t,
        None,
        pat,
        k,
        ByteRange { offset: r.header.dictionary_offset, len: r.header.dictionary_len },
        ByteRange { offset: r.header.root_dir_offset, len: r.header.root_dir_len },
        r.index_section_ranges@[k],
        if r.header.pyramid_meta_len > 0 {
            Some(ByteRange { offset: r.header.pyramid_meta_offset, len: r.header.pyramid_meta_len })
        } else {
            None
        },
        if found {
            Some(tile_label(k, i as nat))
        } else {
            None
        },
        if found {
            Some(tiles[i].2)
        } else {
            None
        },
    )
}

/// Tile ranges in leading order: each range is ordered, and a later tile
/// starts no earlier than an earlier one ends.
pub open spec fn ranges_ascending(tiles: Seq<(u32, u32, ByteRange)>) -> bool {
    &&& forall|i: int| 0 <= i < tiles.len() ==> (#[trigger] tiles[i]).0 <= tiles[i].1
    &&& forall|i: int, j: int| 0 <= i < j < tiles.len() ==> (#[trigger] tiles[i]).1 <= (#[trigger] tiles[j]).0
}

/// Some tile's leading range covers leading id `a`.
pub open spec fn lead_covered(tiles: Seq<(u32, u32, ByteRange)>, a: int) -> bool {
    exists|i: int| 0 <= i < tiles.len() && (#[trigger] tiles[i]).0 <= a <= tiles[i].1
}

/// The tile law of provenance: over tiles in leading order, a match reports
/// a tile (label and byte range) exactly when some tile's leading range
/// covers the match's leading id in the routed permutation, and the tile it
/// reports is such a tile.
pub proof fn lemma_provenance_tile(
    r: Rete,
    pat: Pattern,
    k: int,
    t: Triple,
    terms: (Seq<u8>, Seq<u8>, Seq<u8>),
)
    requires
        ranges_ascending(r.tile_ranges@[k]@),
    ensures
        ({
            let p = provenance_of(r, pat, k, t, terms);
            let tiles = r.tile_ranges@[k]@;
            let lead = permute(k, t).0 as int;
            &&& p.10 is Some <==> lead_covered(tiles, lead)
            &&& p.9 is Some <==> p.10 is Some
            &&& p.10 matches Some(br) ==> exists|i: int|
                0 <= i < tiles.len() && (#[trigger] tiles[i]).0 <= lead <= tiles[i].1 && tiles[i].2 == br
        }),
{
    let tiles = r.tile_ranges@[k]@;
    let lead = permute(k, t).0;
    assert forall|i: int, j: int| 0 <= i <= j < tiles.len() implies #[trigger] tiles[i].1 <= #[trigger] tiles[j].1 by {
        if i < j {
            assert(tiles[i].1 <= tiles[j].0);
            assert(tiles[j].0 <= tiles[j].1);
        }
    }
    lemma_bisect_first(tiles, lead, 0, tiles.len() as int);
    lemma_bisect_bounds(tiles, lead, 0, tiles.len() as int);
    let i = bisect(tiles, lead, 0, tiles.len() as int);
    if lead_covered(tiles, lead as int) {
        let j = choose|j: int| 0 <= j < tiles.len() && (#[trigger] tiles[j]).0 <= lead <= tiles[j].1;
        assert(j >= i) by {
            if j < i {
                assert(tiles[j].1 < lead);
            }
        }
        assert(i < tiles.len());
        assert(tiles[i].0 <= lead) by {
            if i < j {
                assert(tiles[i].1 <= tiles[j].0);
                assert(tiles[i].0 <= tiles[i].1);
            }
        }
    }
    if i < tiles.len() && tiles[i].0 <= lead {
        assert(tiles[i].1 >= lead);
        assert(lead_covered(tiles, lead as int));
    }
}

/// The provenance records of matches `ids`, in order, dropping those the
/// dictionary cannot name.
pub open spec fn provenance_all(r: Rete, pat: Pattern, k: int, ids: Seq<Triple>) -> Seq<ProvenanceView>
    decreases ids.len(),
{
    if ids.len() == 0 {
        seq![]
    } else {
        provenance_all(r, pat, k, ids.drop_last()) + match term_triple(r.dict, ids.last()) {
            Some(x) => seq![provenance_of(r, pat, k, ids.last(), x)],
            None => seq![],
        }
    }
}

/// The provenance records a pattern gets in the default graph of `r`: for
/// the resolved pattern, the matches of the default index, each with the
/// slot routed to by the header's permutations.
pub open spec fn provenance_answers(
    r: Rete,
    s: Option<Seq<u8>>,
    p: Option<Seq<u8>>,
    o: Option<Seq<u8>>,
    out: Seq<ProvenanceView>,
) -> bool {
    (unresolvable(r.dict, s, p, o) && out.len() == 0) || exists|pat: Pattern|
        pattern_for(r.dict, s, p, o, pat) && match route(r.header.perms, pat) {
            None => out.len() == 0,
            Some(k) => out == provenance_all(r, pat, k, index_matches(r.index.perms, r.index.sections@, pat)),
        }
}

impl Rete {
    /// Match a pattern of terms in the default graph, with the provenance of
    /// every match: the permutation answering it, the section ranges, and the
    /// tile the match was read from. A bound term the dictionary does not
    /// know matches nothing.
    pub fn query_with_provenance(&self, s: Option<&str>, p: Option<&str>, o: Option<&str>) -> (r: Vec<
        TripleProvenance,
    >)
        requires
            self.index_section_ranges@.len() == 6,
            self.tile_ranges@.len() == 6,
        ensures
            provenance_answers(
                *self,
                opt_bytes(s),
                opt_bytes(p),
                opt_bytes(o),
                r@.map_values(|x: TripleProvenance| provenance_view(x)),
            ),
    {
        let pattern = match resolve_query_pattern(&self.dict, s, p, o) {
            Some(pat) => pat,
            None => {
                let v: Vec<TripleProvenance> = Vec::new();
                proof {
                    assert(v@.map_values(|x: TripleProvenance| provenance_view(x)).len() == 0);
                }
                return v;
            },
        };
        let k = match route_slot(self.header.perms, pattern) {
            Some(k) => k,
            None => {
                let v: Vec<TripleProvenance> = Vec::new();
                proof {
                    assert(v@.map_values(|x: TripleProvenance| provenance_view(x)).len() == 0);
                }
                return v;
            },
        };
        proof {
            crate::index::lemma_route(self.header.perms, pattern);
        }
        let perm = match IndexPermutation::from_section_index(k) {
            Some(x) => x,
            None => return Vec::new(),
        };
        let dictionary_range = ByteRange { offset: self.header.dictionary_offset, len: self.header.dictionary_len };
        let index_range = ByteRange { offset: self.header.root_dir_offset, len: self.header.root_dir_len };
        let index_section_range = self.index_section_ranges[k];
        let pyramid_range = if self.header.pyramid_meta_len > 0 {
            Some(ByteRange { offset: self.header.pyramid_meta_offset, len: self.header.pyramid_meta_len })
        } else {
            None
        };
        let tiles = &self.tile_ranges[k];
        let ids = self.index.match_pattern(pattern);
        let n = ids.len();
        let mut out: Vec<TripleProvenance> = Vec::new();
        let mut i: usize = 0;
        while i < n
            invariant
                n == ids@.len(),
                i <= n,
                k < 6,
                perm_slot(perm) == k,
                *tiles == self.tile_ranges@[k as int],
                index_section_range == self.index_section_ranges@[k as int],
                dictionary_range == (ByteRange { offset: self.header.dictionary_offset, len: self.header.dictionary_len }),
                index_range == (ByteRange { offset: self.header.root_dir_offset, len: self.header.root_dir_len }),
                pyramid_range == (if self.header.pyramid_meta_len > 0 {
                    Some(ByteRange { offset: self.header.pyramid_meta_offset, len: self.header.pyramid_meta_len })
                } else {
                    None
                }),
                out@.map_values(|x: TripleProvenance| provenance_view(x)) == provenance_all(
                    *self,
                    pattern,
                    k as int,
                    ids@.take(i as int),
                ),
            decreases n - i,
        {
            let t = ids[i];
            let ghost before = out@.map_values(|x: TripleProvenance| provenance_view(x));
            proof {
                assert(ids@.take(i + 1).drop_last() =~= ids@.take(i as int));
                assert(ids@.take(i + 1).last() == ids@[i as int]);
            }
            let a = self.dict.subject_term(t.0);
            let b = self.dict.predicate_term(t.1);
            let c = self.dict.object_term(t.2);
            match (a, b, c) {
                (Some(x), Some(y), Some(z)) => {
                    let lead = crate::index::permute_triple(k, t).0;
                    let ti = tile_partition_point(tiles, lead);
                    let (tile, tile_range) = if ti < tiles.len() && tiles[ti].0 <= lead {
                        let mut label = perm.name_bytes();
                        label.push(47u8);
                        push_decimal(&mut label, ti as u64);
                        (Some(label), Some(tiles[ti].2))
                    } else {
                        (None, None)
                    };
                    let rec = TripleProvenance {
                        terms: (x, y, z),
                        ids: t,
                        graph: None,
                        matched_pattern: pattern,
                        index_permutation: perm,
                        dictionary_range,
                        index_range,
                        index_section_range,
                        pyramid_range,
                        tile,
                        tile_range,
                    };
                    out.push(rec);
                    proof {
                        assert(out@.map_values(|x: TripleProvenance| provenance_view(x)) =~= before.push(
                            provenance_view(rec),
                        ));
                        assert(provenance_view(rec) == provenance_of(
                            *self,
                            pattern,
                            k as int,
                            t,
                            (x@, y@, z@),
                        ));
                    }
                },
                _ => {},
            }
            i = i + 1;
        }
        proof {
            assert(ids@.take(n as int) =~= ids@);
        }
        out
    }
}

} // verus!
