//! Resumable dumps: one bounded slice of a graph's triples at a time, the
//! whole resume state being the next subject id.
use vstd::prelude::*;

use crate::index::{index_matches, GraphIndex, Tile};
use crate::indexfile::slot_tiles;
use crate::rete::{opt_bytes, resolve_all, resolve_triples, tts_view, Rete, TermTriple};
use crate::tile::Triple;

verus! {

/// The position bisection lands on among `tiles[lo..hi]`: the first whose
/// largest leading id is not below `sid`, when their largest leading ids
/// ascend.
pub open spec fn tile_bisect(tiles: Seq<Tile>, sid: u32, lo: int, hi: int) -> int
    decreases hi - lo,
{
    if lo >= hi {
        lo
    } else {
        let mid = lo + (hi - lo) / 2;
        if tiles[mid].max_a < sid {
            tile_bisect(tiles, sid, mid + 1, hi)
        } else {
            tile_bisect(tiles, sid, lo, mid)
        }
    }
}

/// Bisection stays within its bounds.
pub proof fn lemma_tile_bisect_bounds(tiles: Seq<Tile>, sid: u32, lo: int, hi: int)
    requires
        lo <= hi,
    ensures
        lo <= tile_bisect(tiles, sid, lo, hi) <= hi,
    decreases hi - lo,
{
    if lo < hi {
        let mid = lo + (hi - lo) / 2;
        if tiles[mid].max_a < sid {
            lemma_tile_bisect_bounds(tiles, sid, mid + 1, hi);
        } else {
            lemma_tile_bisect_bounds(tiles, sid, lo, mid);
        }
    }
}

/// The first subject id at or after `sid` that the tile bisection lands on
/// can hold, or none past the last tile.
pub open spec fn next_tile_start(tiles: Seq<Tile>, sid: u32) -> Option<u32> {
    let i = tile_bisect(tiles, sid, 0, tiles.len() as int);
    if 0 <= i < tiles.len() {
        Some(if tiles[i].min_a > sid { tiles[i].min_a } else { sid })
    } else {
        None
    }
}

/// Tiles in leading order: each range is ordered, and a later tile starts
/// no earlier than an earlier one ends.
pub open spec fn tiles_ascending(tiles: Seq<Tile>) -> bool {
    &&& forall|i: int| 0 <= i < tiles.len() ==> (#[trigger] tiles[i]).min_a <= tiles[i].max_a
    &&& forall|i: int, j: int| 0 <= i < j < tiles.len() ==> (#[trigger] tiles[i]).max_a <= (#[trigger] tiles[j]).min_a
}

/// Some tile's leading range covers subject id `x`.
pub open spec fn tile_covers(tiles: Seq<Tile>, x: int) -> bool {
    exists|i: int| 0 <= i < tiles.len() && (#[trigger] tiles[i]).min_a <= x <= tiles[i].max_a
}

/// Over tiles in leading order, bisection finds the first tile whose range
/// does not end before `sid`.
proof fn lemma_tile_bisect_first(tiles: Seq<Tile>, sid: u32, lo: int, hi: int)
    requires
        0 <= lo <= hi <= tiles.len(),
        tiles_ascending(tiles),
    ensures
        ({
            let i = tile_bisect(tiles, sid, lo, hi);
            &&& lo <= i <= hi
            &&& forall|j: int| lo <= j < i ==> (#[trigger] tiles[j]).max_a < sid
            &&& i < hi ==> tiles[i].max_a >= sid
        }),
    decreases hi - lo,
{
    if lo < hi {
        let mid = lo + (hi - lo) / 2;
        if tiles[mid].max_a < sid {
            lemma_tile_bisect_first(tiles, sid, mid + 1, hi);
            assert forall|j: int| lo <= j <= mid implies (#[trigger] tiles[j]).max_a < sid by {
                if j < mid {
                    assert(tiles[j].max_a <= tiles[mid].min_a);
                }
            }
        } else {
            lemma_tile_bisect_first(tiles, sid, lo, mid);
        }
    }
}

/// The resume law of a dump: the next start is the least subject id at or
/// after `sid` that some tile covers, so the walk never jumps over a
/// subject a tile holds; there is none only when no tile covers any id from
/// `sid` on.
pub proof fn lemma_next_tile_start_least(tiles: Seq<Tile>, sid: u32)
    requires
        tiles_ascending(tiles),
    ensures
        next_tile_start(tiles, sid) matches Some(r) ==> sid <= r && tile_covers(tiles, r as int) && forall|x: int|
            sid <= x < r ==> !tile_covers(tiles, x),
        next_tile_start(tiles, sid) is None ==> forall|x: int| sid <= x ==> !tile_covers(tiles, x),
{
    let i = tile_bisect(tiles, sid, 0, tiles.len() as int);
    lemma_tile_bisect_first(tiles, sid, 0, tiles.len() as int);
    if i < tiles.len() {
        let r: u32 = if tiles[i].min_a > sid { tiles[i].min_a } else { sid };
        assert(tiles[i].min_a <= r <= tiles[i].max_a);
        assert forall|x: int| sid <= x < r implies !tile_covers(tiles, x) by {
            if tile_covers(tiles, x) {
                let j = choose|j: int| 0 <= j < tiles.len() && (#[trigger] tiles[j]).min_a <= x <= tiles[j].max_a;
                if j < i {
                    assert(tiles[j].max_a < sid);
                } else if j > i {
                    assert(tiles[i].max_a <= tiles[j].min_a);
                }
            }
        }
    } else {
        assert forall|x: int| sid <= x implies !tile_covers(tiles, x) by {
            if tile_covers(tiles, x) {
                let j = choose|j: int| 0 <= j < tiles.len() && (#[trigger] tiles[j]).min_a <= x <= tiles[j].max_a;
                assert(tiles[j].max_a < sid);
            }
        }
    }
}

/// [`next_tile_start`] computed.
fn next_tile_start_of(tiles: &Vec<Tile>, sid: u32) -> (r: Option<u32>)
    ensures
        r == next_tile_start(tiles@, sid),
{
    let mut lo: usize = 0;
    let mut hi: usize = tiles.len();
    proof {
        lemma_tile_bisect_bounds(tiles@, sid, 0, tiles@.len() as int);
    }
    while lo < hi
        invariant
            lo <= hi <= tiles@.len(),
            tile_bisect(tiles@, sid, lo as int, hi as int) == tile_bisect(tiles@, sid, 0, tiles@.len() as int),
        decreases hi - lo,
    {
        let mid = lo + (hi - lo) / 2;
        if tiles[mid].max_a < sid {
            lo = mid + 1;
        } else {
            hi = mid;
        }
    }
    if lo < tiles.len() {
        let t = &tiles[lo];
        Some(if t.min_a > sid { t.min_a } else { sid })
    } else {
        None
    }
}

/// The triples of subject `sid` in an index.
pub open spec fn subject_hits(idx: GraphIndex, sid: u32) -> Seq<Triple> {
    index_matches(idx.perms, idx.sections@, (Some(sid), None, None))
}

/// A dump walk from subject `sid` with `probes` probes left, having
/// gathered `ids`: ascending subjects until `last`, the probe budget or at
/// least `max` triples; subjects without triples that fall between tiles
/// are jumped over. Gives the triples, the next subject and whether the
/// walk ran past every tile.
pub open spec fn dump_walk(
    idx: GraphIndex,
    tiles: Seq<Tile>,
    last: u32,
    sid: u32,
    probes: nat,
    ids: Seq<Triple>,
    max: nat,
) -> (Seq<Triple>, u32, bool)
    decreases probes,
{
    if !(sid <= last && probes > 0) {
        (ids, sid, false)
    } else {
        let hits = subject_hits(idx, sid);
        let jump = if hits.len() == 0 {
            next_tile_start(tiles, sid)
        } else {
            Some(sid)
        };
        match jump {
            None => (ids, sid, true),
            Some(next) => if next > sid {
                dump_walk(idx, tiles, last, next, (probes - 1) as nat, ids, max)
            } else if sid == u32::MAX {
                (ids + hits, sid, true)
            } else if (ids + hits).len() >= max {
                (ids + hits, (sid + 1) as u32, false)
            } else {
                dump_walk(idx, tiles, last, (sid + 1) as u32, (probes - 1) as nat, ids + hits, max)
            },
        }
    }
}

/// The probes a batch of `max` triples may spend: four per wanted triple,
/// at least 65536.
pub open spec fn probe_budget(max: nat) -> nat {
    let m = if max * 4 > usize::MAX { usize::MAX as nat } else { max * 4 };
    if m > 65536 { m } else { 65536 }
}

/// What one dump batch over `idx` from `cursor` gives: nothing, the cursor
/// and done for an empty graph; else the walk from the cursor (or the first
/// tile's first subject) resolved to terms, the next subject, and whether
/// the walk ran out of tiles or past the last subject.
pub open spec fn dump_batch_result(
    r: Rete,
    idx: GraphIndex,
    cursor: u32,
    max: nat,
    out: Seq<(Seq<u8>, Seq<u8>, Seq<u8>)>,
    next: u32,
    done: bool,
) -> bool {
    let tiles = slot_tiles(idx.sections@, 0);
    if tiles.len() == 0 {
        out.len() == 0 && next == cursor && done
    } else {
        let first = tiles[0].min_a;
        let last = tiles.last().max_a;
        let start = if cursor > first { cursor } else { first };
        let w = dump_walk(idx, tiles, last, start, probe_budget(max), seq![], max);
        &&& out == resolve_all(r.dict, w.0)
        &&& next == w.1
        &&& done == (w.2 || w.1 > last)
    }
}

impl Rete {
    /// One bounded, resumable slice of a graph's triples (`None` is the
    /// default graph): the triples of ascending subjects from `cursor`, the
    /// cursor to resume from, and whether the graph is exhausted. A batch
    /// ends on a subject boundary once it holds at least `max_quads`
    /// triples, or when its probe budget runs out; an unknown graph is an
    /// empty, finished dump.
    #[verifier::rlimit(50)]
    #[verifier::spinoff_prover]
    pub fn dump_batch(&self, graph: Option<&str>, cursor: u32, max_quads: usize) -> (r: (Vec<TermTriple>, u32, bool))
        ensures
            match self.graph_target(opt_bytes(graph)) {
                None => r.0@.len() == 0 && r.1 == cursor && r.2,
                Some(idx) => dump_batch_result(*self, idx, cursor, max_quads as nat, tts_view(r.0@), r.1, r.2),
            },
    {
        let index = match self.target_index(Self::graph_arg(graph)) {
            Some(i) => i,
            None => return (Vec::new(), cursor, true),
        };
        if index.sections.len() == 0 || index.sections[0].len() == 0 {
            return (Vec::new(), cursor, true);
        }
        let tiles = &index.sections[0];
        let first = tiles[0].min_a;
        let last = tiles[tiles.len() - 1].max_a;
        let mut sid: u32 = if cursor > first { cursor } else { first };
        let four: usize = if max_quads > usize::MAX / 4 { usize::MAX } else { max_quads * 4 };
        let mut probes: usize = if four > 65536 { four } else { 65536 };
        let mut ids: Vec<Triple> = Vec::new();
        let mut exhausted = false;
        let ghost max = max_quads as nat;
        let ghost target = dump_walk(*index, tiles@, last, sid, probes as nat, seq![], max);
        proof {
            assert(probes as nat == probe_budget(max));
            assert(tiles@ == slot_tiles(index.sections@, 0));
        }
        loop
            invariant_except_break
                *tiles == index.sections@[0],
                max == max_quads as nat,
                target == dump_walk(*index, tiles@, last, sid, probes as nat, ids@, max),
                !exhausted,
            ensures
                target == (ids@, sid, exhausted),
            decreases probes,
        {
            if !(sid <= last && probes > 0) {
                break;
            }
            let ghost s0 = sid;
            let ghost p0 = probes as nat;
            let ghost i0 = ids@;
            probes = probes - 1;
            let hits = index.match_pattern((Some(sid), None, None));
            let jump = if hits.len() == 0 {
                next_tile_start_of(tiles, sid)
            } else {
                Some(sid)
            };
            proof {
                assert(hits@ == subject_hits(*index, s0));
                assert(jump == (if subject_hits(*index, s0).len() == 0 {
                    next_tile_start(tiles@, s0)
                } else {
                    Some(s0)
                }));
            }
            match jump {
                None => {
                    exhausted = true;
                    break;
                },
                Some(next) => {
                    if next > sid {
                        sid = next;
                        proof {
                            assert(target == dump_walk(*index, tiles@, last, sid, probes as nat, ids@, max));
                        }
                        continue;
                    }
                },
            }
            let ghost before = ids@;
            let mut h = hits;
            ids.append(&mut h);
            proof {
                assert(ids@ == i0 + subject_hits(*index, s0));
                assert(jump == Some(s0));
                assert(s0 <= last && p0 > 0);
                assert(target == dump_walk(*index, tiles@, last, s0, p0, i0, max));
                assert(dump_walk(*index, tiles@, last, s0, p0, i0, max) == (if s0 == u32::MAX {
                    (ids@, s0, true)
                } else if ids@.len() >= max {
                    (ids@, (s0 + 1) as u32, false)
                } else {
                    dump_walk(*index, tiles@, last, (s0 + 1) as u32, (p0 - 1) as nat, ids@, max)
                }));
            }
            if sid == u32::MAX {
                exhausted = true;
                break;
            }
            sid = sid + 1;
            proof {
                assert(sid == (s0 + 1) as u32);
                assert(probes as nat == (p0 - 1) as nat);
            }
            if ids.len() >= max_quads {
                proof {
                    assert(ids@.len() >= max);
                    assert(target == (ids@, sid, false));
                }
                break;
            }
            proof {
                assert(target == dump_walk(*index, tiles@, last, sid, probes as nat, ids@, max));
            }
        }
        let done = exhausted || sid > last;
        let triples = resolve_triples(&self.dict, &ids);
        (triples, sid, done)
    }
}

} // verus!
