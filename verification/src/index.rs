//! The permutation index: the id triples of one graph, sorted under each of
//! up to six column orders and cut into tiles.
//!
//! Orders by slot: `0` SPO, `1` POS, `2` OSP, `3` SOP, `4` PSO, `5` OPS. Slots
//! `k` and `k + 3` share their leading column and form one family.
use vstd::prelude::*;

use crate::tile::{
    decode_tile, encode_tile, sorted_triples, tile_bytes, tile_wf, triple_eq, triple_less, triple_lt,
    Triple,
};

verus! {

/// Number of permutation slots.
pub const NUM_PERMS: usize = 6;

/// The mask with every permutation.
pub const PERMS_ALL: u8 = 63;

/// The most triples one tile holds.
pub const TILE_MAX_TRIPLES: usize = 2048;

/// The mask bit of slot `k`.
pub open spec fn perm_bit(k: int) -> int {
    if k == 0 {
        1
    } else if k == 1 {
        2
    } else if k == 2 {
        4
    } else if k == 3 {
        8
    } else if k == 4 {
        16
    } else {
        32
    }
}

/// Whether `mask` carries slot `k`.
pub open spec fn has_perm(mask: u8, k: int) -> bool {
    0 <= k < 6 && (mask as int / perm_bit(k)) % 2 == 1
}

/// Whether `mask` carries slot `k`.
pub fn perm_present(mask: u8, k: usize) -> (r: bool)
    ensures
        r == has_perm(mask, k as int),
{
    if k >= 6 {
        return false;
    }
    let bit: u8 = if k == 0 {
        1
    } else if k == 1 {
        2
    } else if k == 2 {
        4
    } else if k == 3 {
        8
    } else if k == 4 {
        16
    } else {
        32
    };
    (mask / bit) % 2 == 1
}

/// Number of slots `mask` carries below slot `k`.
pub open spec fn perms_below(mask: u8, k: int) -> nat
    decreases k,
{
    if k <= 0 {
        0
    } else {
        perms_below(mask, k - 1) + if has_perm(mask, k - 1) {
            1nat
        } else {
            0nat
        }
    }
}

/// Number of slots `mask` carries.
pub open spec fn perm_count(mask: u8) -> nat {
    perms_below(mask, 6)
}

/// Number of slots `mask` carries.
pub fn perms_len(mask: u8) -> (r: usize)
    ensures
        r == perm_count(mask),
        r <= 6,
{
    let mut n: usize = 0;
    let mut k: usize = 0;
    while k < 6
        invariant
            k <= 6,
            n == perms_below(mask, k as int),
            n <= k,
        decreases 6 - k,
    {
        if perm_present(mask, k) {
            n = n + 1;
        }
        k = k + 1;
    }
    n
}

/// Triple `(s, p, o)` in the column order of slot `k`.
pub open spec fn permute(k: int, t: Triple) -> Triple {
    let (s, p, o) = t;
    if k == 0 {
        (s, p, o)
    } else if k == 1 {
        (p, o, s)
    } else if k == 2 {
        (o, s, p)
    } else if k == 3 {
        (s, o, p)
    } else if k == 4 {
        (p, s, o)
    } else {
        (o, p, s)
    }
}

/// Columns `(a, b, c)` of slot `k` back in subject, predicate, object order.
pub open spec fn unpermute(k: int, t: Triple) -> Triple {
    let (a, b, c) = t;
    if k == 0 {
        (a, b, c)
    } else if k == 1 {
        (c, a, b)
    } else if k == 2 {
        (b, c, a)
    } else if k == 3 {
        (a, c, b)
    } else if k == 4 {
        (b, a, c)
    } else {
        (c, b, a)
    }
}

/// The two reorderings undo each other.
pub proof fn lemma_permute_roundtrip(k: int, t: Triple)
    ensures
        unpermute(k, permute(k, t)) == t,
        permute(k, unpermute(k, t)) == t,
{
}

/// Reorder a triple into slot `k`.
pub fn permute_triple(k: usize, t: Triple) -> (r: Triple)
    ensures
        r == permute(k as int, t),
{
    let (s, p, o) = t;
    if k == 0 {
        (s, p, o)
    } else if k == 1 {
        (p, o, s)
    } else if k == 2 {
        (o, s, p)
    } else if k == 3 {
        (s, o, p)
    } else if k == 4 {
        (p, s, o)
    } else {
        (o, p, s)
    }
}

/// Reorder a triple of slot `k` back to subject, predicate, object.
pub fn unpermute_triple(k: usize, t: Triple) -> (r: Triple)
    ensures
        r == unpermute(k as int, t),
{
    let (a, b, c) = t;
    if k == 0 {
        (a, b, c)
    } else if k == 1 {
        (c, a, b)
    } else if k == 2 {
        (b, c, a)
    } else if k == 3 {
        (a, c, b)
    } else if k == 4 {
        (b, a, c)
    } else {
        (c, b, a)
    }
}

/// One tile of a permutation: its leading-column range, its encoded triples
/// and, when known, the inclusive ranges of its other two columns.
#[derive(Clone, Debug)]
pub struct Tile {
    pub min_a: u32,
    pub max_a: u32,
    pub bytes: Vec<u8>,
    pub syn: Option<(u32, u32, u32, u32)>,
}

/// The triples a tile holds, when its bytes are a valid tile.
pub open spec fn tile_content(b: Seq<u8>) -> Option<Seq<Triple>> {
    if exists|ts: Seq<Triple>| tile_wf(ts) && tile_bytes(ts) == b {
        Some(choose|ts: Seq<Triple>| tile_wf(ts) && tile_bytes(ts) == b)
    } else {
        None
    }
}

/// Decoding a tile gives exactly its content.
pub fn tile_triples(b: &[u8]) -> (r: Option<Vec<Triple>>)
    ensures
        match tile_content(b@) {
            Some(ts) => r matches Some(v) && v@ == ts,
            None => r is None,
        },
{
    let r = decode_tile(b);
    proof {
        if exists|ts: Seq<Triple>| tile_wf(ts) && tile_bytes(ts) == b@ {
            let ts = choose|ts: Seq<Triple>| tile_wf(ts) && tile_bytes(ts) == b@;
            assert(tile_wf(ts) && tile_bytes(ts) == b@);
        }
    }
    r
}

/// Inserting `t` into a sequence adds exactly `t` to what it contains.
proof fn lemma_insert_contains(s: Seq<Triple>, i: int, t: Triple)
    requires
        0 <= i <= s.len(),
    ensures
        forall|x: Triple| #[trigger] s.insert(i, t).contains(x) <==> (s.contains(x) || x == t),
{
    let v = s.insert(i, t);
    assert forall|x: Triple| #[trigger] v.contains(x) <==> (s.contains(x) || x == t) by {
        if v.contains(x) {
            let j = choose|j: int| 0 <= j < v.len() && v[j] == x;
            if j < i {
                assert(s[j] == x);
            } else if j > i {
                assert(s[j - 1] == x);
            }
        }
        if s.contains(x) {
            let j = choose|j: int| 0 <= j < s.len() && s[j] == x;
            if j < i {
                assert(v[j] == x);
            } else {
                assert(v[j + 1] == x);
            }
        }
        if x == t {
            assert(v[i] == x);
        }
    }
}

/// Insert `t` into a strictly ascending vector, keeping it so.
fn insert_sorted(v: &mut Vec<Triple>, t: Triple)
    requires
        sorted_triples(old(v)@),
    ensures
        sorted_triples(final(v)@),
        forall|x: Triple| final(v)@.contains(x) <==> (old(v)@.contains(x) || x == t),
{
    let n = v.len();
    let mut i: usize = 0;
    while i < n && triple_less(v[i], t)
        invariant
            n == v@.len(),
            v@ == old(v)@,
            i <= n,
            forall|j: int| 0 <= j < i ==> triple_lt(#[trigger] v@[j], t),
        decreases n - i,
    {
        i = i + 1;
    }
    if i < n && triple_eq(v[i], t) {
        proof {
            assert(v@.contains(t) ==> true);
            assert(v@[i as int] == t);
            assert forall|x: Triple| v@.contains(x) <==> (v@.contains(x) || x == t) by {
                if x == t {
                    assert(v@[i as int] == x);
                }
            }
        }
        return;
    }
    let ghost before = v@;
    v.insert(i, t);
    proof {
        assert forall|j: int| i < j < v@.len() implies triple_lt(t, #[trigger] v@[j]) by {
            assert(v@[j] == before[j - 1]);
            assert(!triple_lt(before[i as int], t));
            assert(before[i as int] != t);
            if j - 1 > i {
                assert(triple_lt(before[i as int], before[j - 1]));
            }
        }
        assert forall|a: int, b: int| 0 <= a < b < v@.len() implies triple_lt(
            #[trigger] v@[a],
            #[trigger] v@[b],
        ) by {
            if b < i {
                assert(v@[a] == before[a] && v@[b] == before[b]);
            } else if b == i {
                assert(v@[a] == before[a]);
            } else if a == i {
            } else if a < i {
                assert(v@[a] == before[a]);
                assert(triple_lt(before[a], t));
                assert(triple_lt(t, v@[b]));
            } else {
                assert(v@[a] == before[a - 1] && v@[b] == before[b - 1]);
            }
        }
        lemma_insert_contains(before, i as int, t);
        assert(v@ == before.insert(i as int, t));
    }
}

/// The triples of `ts` reordered into slot `k`, ascending and without
/// duplicates.
pub fn sorted_permutation(ts: &Vec<Triple>, k: usize) -> (r: Vec<Triple>)
    ensures
        sorted_triples(r@),
        forall|x: Triple| r@.contains(x) <==> exists|i: int| 0 <= i < ts@.len() && permute(k as int, #[trigger] ts@[i]) == x,
{
    let mut out: Vec<Triple> = Vec::new();
    let n = ts.len();
    let mut i: usize = 0;
    while i < n
        invariant
            n == ts@.len(),
            i <= n,
            sorted_triples(out@),
            forall|x: Triple| out@.contains(x) <==> exists|j: int| 0 <= j < i && permute(k as int, #[trigger] ts@[j]) == x,
        decreases n - i,
    {
        let p = permute_triple(k, ts[i]);
        insert_sorted(&mut out, p);
        proof {
            assert forall|x: Triple| out@.contains(x) <==> exists|j: int| 0 <= j < i + 1 && permute(k as int, #[trigger] ts@[j]) == x by {
                if x == p {
                    assert(permute(k as int, ts@[i as int]) == x);
                }
                if exists|j: int| 0 <= j < i + 1 && permute(k as int, #[trigger] ts@[j]) == x {
                    let j = choose|j: int| 0 <= j < i + 1 && permute(k as int, #[trigger] ts@[j]) == x;
                    if j < i {
                        assert(exists|j2: int| 0 <= j2 < i && permute(k as int, #[trigger] ts@[j2]) == x);
                    }
                }
            }
        }
        i = i + 1;
    }
    out
}

/// A valid tile's bytes hold exactly its triples.
pub proof fn lemma_tile_content(ts: Seq<Triple>)
    requires
        tile_wf(ts),
    ensures
        tile_content(tile_bytes(ts)) == Some(ts),
{
    let w = choose|w: Seq<Triple>| tile_wf(w) && tile_bytes(w) == tile_bytes(ts);
    crate::tile::lemma_tile_bytes_unique(w, ts);
}

/// Smallest middle column of a non-empty run.
pub open spec fn min_b(ts: Seq<Triple>) -> u32
    decreases ts.len(),
{
    if ts.len() <= 1 {
        ts[0].1
    } else {
        let m = min_b(ts.drop_last());
        if ts.last().1 < m {
            ts.last().1
        } else {
            m
        }
    }
}

/// Largest middle column of a non-empty run.
pub open spec fn max_b(ts: Seq<Triple>) -> u32
    decreases ts.len(),
{
    if ts.len() <= 1 {
        ts[0].1
    } else {
        let m = max_b(ts.drop_last());
        if ts.last().1 > m {
            ts.last().1
        } else {
            m
        }
    }
}

/// Smallest last column of a non-empty run.
pub open spec fn min_c(ts: Seq<Triple>) -> u32
    decreases ts.len(),
{
    if ts.len() <= 1 {
        ts[0].2
    } else {
        let m = min_c(ts.drop_last());
        if ts.last().2 < m {
            ts.last().2
        } else {
            m
        }
    }
}

/// Largest last column of a non-empty run.
pub open spec fn max_c(ts: Seq<Triple>) -> u32
    decreases ts.len(),
{
    if ts.len() <= 1 {
        ts[0].2
    } else {
        let m = max_c(ts.drop_last());
        if ts.last().2 > m {
            ts.last().2
        } else {
            m
        }
    }
}

/// The synopsis of a run: inclusive ranges of its middle and last columns.
pub open spec fn synopsis_of(ts: Seq<Triple>) -> (u32, u32, u32, u32) {
    (min_b(ts), max_b(ts), min_c(ts), max_c(ts))
}

/// The ends of a synopsis are ordered and attained bounds of the run.
pub proof fn lemma_synopsis_order(ts: Seq<Triple>)
    requires
        ts.len() > 0,
    ensures
        min_b(ts) <= max_b(ts),
        min_c(ts) <= max_c(ts),
    decreases ts.len(),
{
    if ts.len() > 1 {
        lemma_synopsis_order(ts.drop_last());
    }
}

/// Compute the synopsis of a non-empty run.
pub fn compute_synopsis(ts: &Vec<Triple>) -> (r: (u32, u32, u32, u32))
    requires
        ts@.len() > 0,
    ensures
        r == synopsis_of(ts@),
{
    let n = ts.len();
    let mut lb = ts[0].1;
    let mut hb = ts[0].1;
    let mut lc = ts[0].2;
    let mut hc = ts[0].2;
    let mut i: usize = 1;
    while i < n
        invariant
            n == ts@.len(),
            1 <= i <= n,
            (lb, hb, lc, hc) == synopsis_of(ts@.take(i as int)),
        decreases n - i,
    {
        proof {
            assert(ts@.take(i + 1).drop_last() =~= ts@.take(i as int));
        }
        let t = ts[i];
        if t.1 < lb {
            lb = t.1;
        }
        if t.1 > hb {
            hb = t.1;
        }
        if t.2 < lc {
            lc = t.2;
        }
        if t.2 > hc {
            hc = t.2;
        }
        i = i + 1;
    }
    proof {
        assert(ts@.take(n as int) =~= ts@);
    }
    (lb, hb, lc, hc)
}

/// Tile `t` holds exactly the run `ts`, with its ranges and synopsis.
pub open spec fn tile_holds(t: Tile, ts: Seq<Triple>) -> bool {
    &&& tile_wf(ts)
    &&& t.bytes@ == tile_bytes(ts)
    &&& t.min_a == ts[0].0
    &&& t.max_a == ts.last().0
    &&& t.syn == Some(synopsis_of(ts))
}

/// Build the tile holding `ts`.
pub fn make_tile(ts: &Vec<Triple>) -> (r: Tile)
    requires
        tile_wf(ts@),
    ensures
        tile_holds(r, ts@),
{
    let bytes = encode_tile(ts);
    let syn = compute_synopsis(ts);
    Tile { min_a: ts[0].0, max_a: ts[ts.len() - 1].0, bytes, syn: Some(syn) }
}

/// The triples a tile holds, or none when its bytes are not a valid tile.
pub open spec fn content_or_empty(t: Tile) -> Seq<Triple> {
    match tile_content(t.bytes@) {
        Some(ts) => ts,
        None => seq![],
    }
}

/// The triples of a run of tiles, in order.
pub open spec fn section_triples(tiles: Seq<Tile>) -> Seq<Triple>
    decreases tiles.len(),
{
    if tiles.len() == 0 {
        seq![]
    } else {
        section_triples(tiles.drop_last()) + content_or_empty(tiles.last())
    }
}

/// Every tile of a run is valid and within the size limit.
pub open spec fn tiles_valid(tiles: Seq<Tile>) -> bool {
    forall|i: int|
        0 <= i < tiles.len() ==> (tile_content(#[trigger] tiles[i].bytes@) matches Some(ts)
            && tile_holds(tiles[i], ts) && ts.len() <= TILE_MAX_TRIPLES)
}

/// A strictly ascending run stays so on any subrange.
proof fn lemma_sorted_subrange(ts: Seq<Triple>, i: int, j: int)
    requires
        sorted_triples(ts),
        0 <= i <= j <= ts.len(),
    ensures
        sorted_triples(ts.subrange(i, j)),
{
    assert forall|a: int, b: int| 0 <= a < b < j - i implies triple_lt(
        #[trigger] ts.subrange(i, j)[a],
        #[trigger] ts.subrange(i, j)[b],
    ) by {
        assert(ts.subrange(i, j)[a] == ts[i + a]);
        assert(ts.subrange(i, j)[b] == ts[i + b]);
    }
}

/// Where the tile starting at `i` ends: a tile that starts inside a group of
/// equal leading values takes the rest of that group; otherwise it takes
/// whole groups while they fit, and a group too large for one tile is split
/// into full tiles.
fn tile_end(ts: &Vec<Triple>, i: usize) -> (r: usize)
    requires
        i < ts@.len(),
    ensures
        i < r <= ts@.len(),
        r - i <= TILE_MAX_TRIPLES,
{
    let n = ts.len();
    let a = ts[i].0;
    let mut g = i;
    while g < n && ts[g].0 == a && g - i < TILE_MAX_TRIPLES
        invariant
            n == ts@.len(),
            i <= g <= n,
            g - i <= TILE_MAX_TRIPLES,
        decreases n - g,
    {
        g = g + 1;
    }
    let continues = i > 0 && ts[i - 1].0 == a;
    if continues || g - i == TILE_MAX_TRIPLES || g == n {
        return g;
    }
    let mut end = g;
    while end < n
        invariant
            n == ts@.len(),
            i < end <= n,
            end - i <= TILE_MAX_TRIPLES,
        decreases n - end,
    {
        let b = ts[end].0;
        let mut h = end;
        while h < n && ts[h].0 == b && h - i <= TILE_MAX_TRIPLES
            invariant
                n == ts@.len(),
                i < end <= h <= n,
                h - i <= TILE_MAX_TRIPLES + 1,
            decreases n - h,
        {
            h = h + 1;
        }
        if h - i > TILE_MAX_TRIPLES || (h < n && ts[h].0 == b) {
            break;
        }
        end = h;
    }
    end
}

/// Cut a strictly ascending run into tiles.
pub fn cut_tiles(ts: &Vec<Triple>) -> (r: Vec<Tile>)
    requires
        sorted_triples(ts@),
    ensures
        tiles_valid(r@),
        section_triples(r@) == ts@,
{
    let n = ts.len();
    let mut out: Vec<Tile> = Vec::new();
    let mut i: usize = 0;
    while i < n
        invariant
            n == ts@.len(),
            i <= n,
            sorted_triples(ts@),
            tiles_valid(out@),
            section_triples(out@) == ts@.take(i as int),
        decreases n - i,
    {
        let end = tile_end(ts, i);
        let chunk = vstd::slice::slice_to_vec(vstd::slice::slice_subrange(ts.as_slice(), i, end));
        proof {
            lemma_sorted_subrange(ts@, i as int, end as int);
            assert(chunk@ == ts@.subrange(i as int, end as int));
        }
        let tile = make_tile(&chunk);
        let ghost before = out@;
        out.push(tile);
        proof {
            lemma_tile_content(chunk@);
            assert(out@.drop_last() =~= before);
            assert(ts@.take(end as int) =~= ts@.take(i as int) + chunk@);
            assert forall|k: int| 0 <= k < out@.len() implies (tile_content(
                #[trigger] out@[k].bytes@,
            ) matches Some(c) && tile_holds(out@[k], c) && c.len() <= TILE_MAX_TRIPLES) by {
                if k < before.len() {
                    assert(out@[k] == before[k]);
                }
            }
        }
        i = end;
    }
    proof {
        assert(ts@.take(n as int) =~= ts@);
    }
    out
}

/// One graph's permutation index: which orders it carries, and the tiles of
/// each of the six slots (empty for an order it does not carry).
#[derive(Clone, Debug)]
pub struct GraphIndex {
    pub perms: u8,
    pub sections: Vec<Vec<Tile>>,
    pub triple_count: u64,
}

/// A triple pattern over ids: each position bound to an id or free.
pub type Pattern = (Option<u32>, Option<u32>, Option<u32>);

/// Whether `t` (subject, predicate, object) satisfies `pat`.
pub open spec fn matches(pat: Pattern, t: Triple) -> bool {
    &&& (pat.0 matches Some(s) ==> t.0 == s)
    &&& (pat.1 matches Some(p) ==> t.1 == p)
    &&& (pat.2 matches Some(o) ==> t.2 == o)
}

/// The order whose leading columns the bound positions of `pat` fill best.
pub open spec fn preferred_slot(pat: Pattern) -> int {
    if pat.0 is Some {
        if pat.2 is Some && pat.1 is None {
            3
        } else {
            0
        }
    } else if pat.1 is Some {
        1
    } else if pat.2 is Some {
        2
    } else {
        0
    }
}

/// The first slot at or after `k` that `mask` carries, if any.
pub open spec fn first_present_from(mask: u8, k: int) -> Option<int>
    decreases 6 - k,
{
    if k >= 6 || k < 0 {
        None
    } else if has_perm(mask, k) {
        Some(k)
    } else {
        first_present_from(mask, k + 1)
    }
}

/// The first carried slot from `k` on is a carried slot.
pub proof fn lemma_first_present(mask: u8, k: int)
    ensures
        first_present_from(mask, k) matches Some(j) ==> k <= j < 6 && has_perm(mask, j),
    decreases 6 - k,
{
    if 0 <= k < 6 && !has_perm(mask, k) {
        lemma_first_present(mask, k + 1);
    }
}

/// The routed slot is one the mask carries.
pub proof fn lemma_route(mask: u8, pat: Pattern)
    ensures
        route(mask, pat) matches Some(k) ==> 0 <= k < 6 && has_perm(mask, k),
{
    lemma_first_present(mask, 0);
}

/// The slot a pattern is answered from: the preferred order, else its
/// sibling with the same leading column, else the first order carried.
pub open spec fn route(mask: u8, pat: Pattern) -> Option<int> {
    let k = preferred_slot(pat);
    let sib = if k < 3 {
        k + 3
    } else {
        k - 3
    };
    if has_perm(mask, k) {
        Some(k)
    } else if has_perm(mask, sib) {
        Some(sib)
    } else {
        first_present_from(mask, 0)
    }
}

/// The bound value of the leading column of slot `k`, if any.
pub open spec fn leading_bound(k: int, pat: Pattern) -> Option<u32> {
    if k == 0 || k == 3 {
        pat.0
    } else if k == 1 || k == 4 {
        pat.1
    } else {
        pat.2
    }
}

/// Whether a tile's leading range can hold a match.
pub open spec fn admits(t: Tile, lead: Option<u32>) -> bool {
    match lead {
        Some(a) => t.min_a <= a <= t.max_a,
        None => true,
    }
}

/// The matches of `pat` among the slot-`k` triples `ts`, back in subject,
/// predicate, object order.
pub open spec fn run_matches(k: int, ts: Seq<Triple>, pat: Pattern) -> Seq<Triple>
    decreases ts.len(),
{
    if ts.len() == 0 {
        seq![]
    } else {
        let t = unpermute(k, ts.last());
        run_matches(k, ts.drop_last(), pat) + if matches(pat, t) {
            seq![t]
        } else {
            seq![]
        }
    }
}

/// The matches of `pat` in the tiles of slot `k` whose range admits it.
pub open spec fn section_matches(k: int, tiles: Seq<Tile>, pat: Pattern) -> Seq<Triple>
    decreases tiles.len(),
{
    if tiles.len() == 0 {
        seq![]
    } else {
        section_matches(k, tiles.drop_last(), pat) + if admits(
            tiles.last(),
            leading_bound(k, pat),
        ) {
            run_matches(k, content_or_empty(tiles.last()), pat)
        } else {
            seq![]
        }
    }
}

/// What matching `pat` against an index returns.
pub open spec fn index_matches(mask: u8, sections: Seq<Vec<Tile>>, pat: Pattern) -> Seq<Triple> {
    match route(mask, pat) {
        Some(k) => if k < sections.len() {
            section_matches(k, sections[k]@, pat)
        } else {
            seq![]
        },
        None => seq![],
    }
}

/// The index of `ts` carries, in each slot of `mask`, exactly the distinct
/// triples of `ts` in that order, cut into valid tiles.
pub open spec fn index_of(idx: GraphIndex, ts: Seq<Triple>) -> bool {
    &&& idx.sections@.len() == NUM_PERMS
    &&& forall|k: int|
        0 <= k < 6 ==> (if has_perm(idx.perms, k) {
            tiles_valid(#[trigger] idx.sections@[k]@) && sorted_triples(
                section_triples(idx.sections@[k]@),
            ) && forall|x: Triple|
                section_triples(idx.sections@[k]@).contains(x) <==> exists|i: int|
                    0 <= i < ts.len() && permute(k, #[trigger] ts[i]) == x
        } else {
            idx.sections@[k]@.len() == 0
        })
}

/// Does `pat` match `t`?
pub fn pattern_matches(pat: Pattern, t: Triple) -> (r: bool)
    ensures
        r == matches(pat, t),
{
    (match pat.0 {
        Some(s) => t.0 == s,
        None => true,
    }) && (match pat.1 {
        Some(p) => t.1 == p,
        None => true,
    }) && (match pat.2 {
        Some(o) => t.2 == o,
        None => true,
    })
}

/// The slot `pat` is answered from.
pub fn route_slot(mask: u8, pat: Pattern) -> (r: Option<usize>)
    ensures
        match route(mask, pat) {
            Some(k) => r == Some(k as usize),
            None => r is None,
        },
{
    let k: usize = if pat.0.is_some() {
        if pat.2.is_some() && pat.1.is_none() {
            3
        } else {
            0
        }
    } else if pat.1.is_some() {
        1
    } else if pat.2.is_some() {
        2
    } else {
        0
    };
    let sib: usize = if k < 3 {
        k + 3
    } else {
        k - 3
    };
    if perm_present(mask, k) {
        return Some(k);
    }
    if perm_present(mask, sib) {
        return Some(sib);
    }
    let mut j: usize = 0;
    while j < 6
        invariant
            j <= 6,
            route(mask, pat) == first_present_from(mask, 0),
            first_present_from(mask, 0) == first_present_from(mask, j as int),
        decreases 6 - j,
    {
        if perm_present(mask, j) {
            return Some(j);
        }
        j = j + 1;
    }
    None
}

/// The bound leading value of slot `k` in `pat`.
pub(crate) fn leading_of(k: usize, pat: Pattern) -> (r: Option<u32>)
    ensures
        r == leading_bound(k as int, pat),
{
    if k == 0 || k == 3 {
        pat.0
    } else if k == 1 || k == 4 {
        pat.1
    } else {
        pat.2
    }
}

/// Append the matches among one run of slot-`k` triples.
pub(crate) fn push_run_matches(out: &mut Vec<Triple>, k: usize, ts: &Vec<Triple>, pat: Pattern)
    ensures
        final(out)@ == old(out)@ + run_matches(k as int, ts@, pat),
{
    let n = ts.len();
    let mut i: usize = 0;
    while i < n
        invariant
            n == ts@.len(),
            i <= n,
            out@ == old(out)@ + run_matches(k as int, ts@.take(i as int), pat),
        decreases n - i,
    {
        proof {
            assert(ts@.take(i + 1).drop_last() =~= ts@.take(i as int));
        }
        let t = unpermute_triple(k, ts[i]);
        if pattern_matches(pat, t) {
            out.push(t);
        }
        proof {
            assert(out@ =~= old(out)@ + run_matches(k as int, ts@.take(i + 1), pat));
        }
        i = i + 1;
    }
    proof {
        assert(ts@.take(n as int) =~= ts@);
    }
}

impl GraphIndex {
    /// Build the index of `triples` in the orders `perms` carries.
    pub fn build(triples: &Vec<Triple>, perms: u8) -> (r: GraphIndex)
        ensures
            r.perms == perms,
            index_of(r, triples@),
    {
        let mut sections: Vec<Vec<Tile>> = Vec::new();
        let mut k: usize = 0;
        let mut count: u64 = 0;
        while k < 6
            invariant
                k <= 6,
                sections@.len() == k,
                forall|j: int|
                    0 <= j < k ==> (if has_perm(perms, j) {
                        tiles_valid(#[trigger] sections@[j]@) && sorted_triples(
                            section_triples(sections@[j]@),
                        ) && forall|x: Triple|
                            section_triples(sections@[j]@).contains(x) <==> exists|i: int|
                                0 <= i < triples@.len() && permute(j, #[trigger] triples@[i]) == x
                    } else {
                        sections@[j]@.len() == 0
                    }),
            decreases 6 - k,
        {
            if perm_present(perms, k) {
                let sorted = sorted_permutation(triples, k);
                count = sorted.len() as u64;
                let tiles = cut_tiles(&sorted);
                sections.push(tiles);
            } else {
                sections.push(Vec::new());
            }
            proof {
                assert forall|j: int| 0 <= j < k + 1 implies (if has_perm(perms, j) {
                    tiles_valid(#[trigger] sections@[j]@) && sorted_triples(
                        section_triples(sections@[j]@),
                    ) && forall|x: Triple|
                        section_triples(sections@[j]@).contains(x) <==> exists|i: int|
                            0 <= i < triples@.len() && permute(j, #[trigger] triples@[i]) == x
                } else {
                    sections@[j]@.len() == 0
                }) by {
                    if j < k {
                        assert(sections@[j] == sections@.drop_last()[j]);
                    }
                }
            }
            k = k + 1;
        }
        GraphIndex { perms, sections, triple_count: count }
    }

    /// The carried orders.
    pub fn perms(&self) -> (r: u8)
        ensures
            r == self.perms,
    {
        self.perms
    }

    /// Number of distinct triples.
    pub fn triple_count(&self) -> (r: u64)
        ensures
            r == self.triple_count,
    {
        self.triple_count
    }

    /// The matches of `pat`, in subject, predicate, object order: the triples
    /// of the tiles of the routed order whose leading range admits the
    /// pattern.
    pub fn match_pattern(&self, pat: Pattern) -> (r: Vec<Triple>)
        ensures
            r@ == index_matches(self.perms, self.sections@, pat),
    {
        let mut out: Vec<Triple> = Vec::new();
        proof {
            lemma_route(self.perms, pat);
        }
        let k = match route_slot(self.perms, pat) {
            Some(k) => k,
            None => return out,
        };
        if k >= self.sections.len() {
            return out;
        }
        let tiles = &self.sections[k];
        let lead = leading_of(k, pat);
        let n = tiles.len();
        let mut i: usize = 0;
        while i < n
            invariant
                n == tiles@.len(),
                i <= n,
                lead == leading_bound(k as int, pat),
                out@ == section_matches(k as int, tiles@.take(i as int), pat),
            decreases n - i,
        {
            proof {
                assert(tiles@.take(i + 1).drop_last() =~= tiles@.take(i as int));
            }
            let t = &tiles[i];
            let admitted = match lead {
                Some(a) => t.min_a <= a && a <= t.max_a,
                None => true,
            };
            if admitted {
                match tile_triples(t.bytes.as_slice()) {
                    Some(ts) => push_run_matches(&mut out, k, &ts, pat),
                    None => {},
                }
            }
            proof {
                assert(out@ =~= section_matches(k as int, tiles@.take(i + 1), pat));
            }
            i = i + 1;
        }
        proof {
            assert(tiles@.take(n as int) =~= tiles@);
        }
        out
    }
}

/// What a run's matches contain.
proof fn lemma_run_matches(k: int, ts: Seq<Triple>, pat: Pattern)
    ensures
        forall|x: Triple|
            #[trigger] run_matches(k, ts, pat).contains(x) <==> (matches(pat, x) && exists|i: int|
                0 <= i < ts.len() && unpermute(k, #[trigger] ts[i]) == x),
    decreases ts.len(),
{
    if ts.len() > 0 {
        let pre = ts.drop_last();
        lemma_run_matches(k, pre, pat);
        let t = unpermute(k, ts.last());
        let tail: Seq<Triple> = if matches(pat, t) {
            seq![t]
        } else {
            seq![]
        };
        assert forall|x: Triple|
            #[trigger] run_matches(k, ts, pat).contains(x) <==> (matches(pat, x) && exists|i: int|
                0 <= i < ts.len() && unpermute(k, #[trigger] ts[i]) == x) by {
            let r = run_matches(k, ts, pat);
            assert(r == run_matches(k, pre, pat) + tail);
            if r.contains(x) {
                let j = choose|j: int| 0 <= j < r.len() && r[j] == x;
                if j < run_matches(k, pre, pat).len() {
                    assert(run_matches(k, pre, pat)[j] == x);
                    assert(run_matches(k, pre, pat).contains(x));
                    let i = choose|i: int| 0 <= i < pre.len() && unpermute(k, #[trigger] pre[i]) == x;
                    assert(ts[i] == pre[i]);
                } else {
                    assert(tail[j - run_matches(k, pre, pat).len()] == x);
                    assert(ts[ts.len() - 1] == ts.last());
                }
            }
            if matches(pat, x) && exists|i: int| 0 <= i < ts.len() && unpermute(k, #[trigger] ts[i]) == x {
                let i = choose|i: int| 0 <= i < ts.len() && unpermute(k, #[trigger] ts[i]) == x;
                if i < ts.len() - 1 {
                    assert(pre[i] == ts[i]);
                    assert(run_matches(k, pre, pat).contains(x));
                    let j = choose|j: int| 0 <= j < run_matches(k, pre, pat).len() && run_matches(k, pre, pat)[j] == x;
                    assert(r[j] == x);
                } else {
                    assert(r[r.len() - 1] == x);
                }
            }
        }
    } else {
        assert forall|x: Triple|
            #[trigger] run_matches(k, ts, pat).contains(x) <==> (matches(pat, x) && exists|i: int|
                0 <= i < ts.len() && unpermute(k, #[trigger] ts[i]) == x) by {
            assert(run_matches(k, ts, pat).len() == 0);
        }
    }
}

/// In a valid tile, every triple's leading column lies in the tile's range.
proof fn lemma_tile_range(t: Tile, ts: Seq<Triple>, i: int)
    requires
        tile_holds(t, ts),
        0 <= i < ts.len(),
    ensures
        t.min_a <= ts[i].0 <= t.max_a,
{
    if i > 0 {
        assert(triple_lt(ts[0], ts[i]));
    }
    if i < ts.len() - 1 {
        assert(triple_lt(ts[i], ts[ts.len() - 1]));
    }
}

/// A matching triple's leading column is the pattern's bound leading value.
proof fn lemma_leading(k: int, pat: Pattern, t: Triple)
    requires
        0 <= k < 6,
        matches(pat, unpermute(k, t)),
    ensures
        leading_bound(k, pat) matches Some(a) ==> t.0 == a,
{
}

/// What the admitted tiles of a valid section match: every match of the
/// pattern among the section's triples.
proof fn lemma_section_matches(k: int, tiles: Seq<Tile>, pat: Pattern)
    requires
        0 <= k < 6,
        tiles_valid(tiles),
    ensures
        forall|x: Triple|
            #[trigger] section_matches(k, tiles, pat).contains(x) <==> (matches(pat, x) && exists|i: int|
                0 <= i < section_triples(tiles).len() && unpermute(k, #[trigger] section_triples(tiles)[i]) == x),
    decreases tiles.len(),
{
    if tiles.len() > 0 {
        let pre = tiles.drop_last();
        assert(tiles_valid(pre)) by {
            assert forall|i: int| 0 <= i < pre.len() implies (tile_content(#[trigger] pre[i].bytes@) matches Some(ts)
                && tile_holds(pre[i], ts) && ts.len() <= TILE_MAX_TRIPLES) by {
                assert(pre[i] == tiles[i]);
            }
        }
        lemma_section_matches(k, pre, pat);
        let last = tiles.last();
        assert(tiles[tiles.len() - 1] == last);
        let c = content_or_empty(last);
        lemma_run_matches(k, c, pat);
        let st = section_triples(tiles);
        let sp = section_triples(pre);
        assert(st == sp + c);
        let sm = section_matches(k, tiles, pat);
        let mp = section_matches(k, pre, pat);
        let add: Seq<Triple> = if admits(last, leading_bound(k, pat)) {
            run_matches(k, c, pat)
        } else {
            seq![]
        };
        assert(sm == mp + add);
        assert forall|x: Triple|
            #[trigger] section_matches(k, tiles, pat).contains(x) <==> (matches(pat, x) && exists|i: int|
                0 <= i < section_triples(tiles).len() && unpermute(k, #[trigger] section_triples(tiles)[i]) == x) by {
            if sm.contains(x) {
                let j = choose|j: int| 0 <= j < sm.len() && sm[j] == x;
                if j < mp.len() {
                    assert(mp[j] == x);
                    assert(mp.contains(x));
                    let i = choose|i: int| 0 <= i < sp.len() && unpermute(k, #[trigger] sp[i]) == x;
                    assert(st[i] == sp[i]);
                } else {
                    assert(add[j - mp.len()] == x);
                    assert(add.contains(x));
                    assert(run_matches(k, c, pat).contains(x));
                    let i = choose|i: int| 0 <= i < c.len() && unpermute(k, #[trigger] c[i]) == x;
                    assert(st[sp.len() + i] == c[i]);
                }
            }
            if matches(pat, x) && exists|i: int| 0 <= i < st.len() && unpermute(k, #[trigger] st[i]) == x {
                let i = choose|i: int| 0 <= i < st.len() && unpermute(k, #[trigger] st[i]) == x;
                if i < sp.len() {
                    assert(sp[i] == st[i]);
                    assert(mp.contains(x));
                    let j = choose|j: int| 0 <= j < mp.len() && mp[j] == x;
                    assert(sm[j] == x);
                } else {
                    let ci = i - sp.len();
                    assert(c[ci] == st[i]);
                    let ts = tile_content(last.bytes@)->0;
                    assert(tile_content(tiles[tiles.len() - 1].bytes@) matches Some(ts2) && tile_holds(tiles[tiles.len() - 1], ts2));
                    assert(c == ts);
                    lemma_tile_range(last, ts, ci);
                    lemma_leading(k, pat, c[ci]);
                    assert(admits(last, leading_bound(k, pat)));
                    assert(run_matches(k, c, pat).contains(x));
                    let j = choose|j: int| 0 <= j < add.len() && add[j] == x;
                    assert(sm[mp.len() + j] == x);
                }
            }
        }
    } else {
        assert forall|x: Triple|
            #[trigger] section_matches(k, tiles, pat).contains(x) <==> (matches(pat, x) && exists|i: int|
                0 <= i < section_triples(tiles).len() && unpermute(k, #[trigger] section_triples(tiles)[i]) == x) by {
            assert(section_matches(k, tiles, pat).len() == 0);
            assert(section_triples(tiles).len() == 0);
        }
    }
}

/// The index law: matching a pattern against the index built from `ts`
/// yields exactly the triples of `ts` that satisfy it, each once, whichever
/// orders the index carries, as long as it carries one.
pub proof fn lemma_match_pattern_exact(idx: GraphIndex, ts: Seq<Triple>, pat: Pattern)
    requires
        index_of(idx, ts),
        idx.perms % 64 != 0,
    ensures
        forall|x: Triple| #[trigger] index_matches(idx.perms, idx.sections@, pat).contains(x) <==> (
            ts.contains(x) && matches(pat, x)),
{
    lemma_route(idx.perms, pat);
    lemma_first_present_some(idx.perms);
    let k = route(idx.perms, pat)->0;
    let tiles = idx.sections@[k]@;
    assert(has_perm(idx.perms, k));
    assert(tiles_valid(tiles));
    lemma_section_matches(k, tiles, pat);
    let st = section_triples(tiles);
    assert forall|x: Triple| #[trigger] index_matches(idx.perms, idx.sections@, pat).contains(x) <==> (
        ts.contains(x) && matches(pat, x)) by {
        let m = index_matches(idx.perms, idx.sections@, pat);
        assert(m == section_matches(k, tiles, pat));
        if m.contains(x) {
            let i = choose|i: int| 0 <= i < st.len() && unpermute(k, #[trigger] st[i]) == x;
            assert(st.contains(st[i]));
            let j = choose|j: int| 0 <= j < ts.len() && permute(k, #[trigger] ts[j]) == st[i];
            lemma_permute_roundtrip(k, ts[j]);
            assert(ts[j] == x);
        }
        if ts.contains(x) && matches(pat, x) {
            let j = choose|j: int| 0 <= j < ts.len() && ts[j] == x;
            let p = permute(k, x);
            assert(permute(k, ts[j]) == p);
            assert(st.contains(p));
            let i = choose|i: int| 0 <= i < st.len() && st[i] == p;
            lemma_permute_roundtrip(k, x);
            assert(unpermute(k, st[i]) == x);
        }
    }
}

/// A mask with a low bit set carries some slot.
proof fn lemma_first_present_some(mask: u8)
    requires
        mask % 64 != 0,
    ensures
        first_present_from(mask, 0) is Some,
{
    reveal_with_fuel(first_present_from, 7);
}

} // verus!
