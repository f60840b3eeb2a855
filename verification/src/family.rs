//! The paired-family index container: one payload per leading column
//! (subject, predicate, object) holding the two sibling permutations that
//! share it, with their common tile ranges, per-tile prefix-2 directories,
//! tile records and synopsis trailers. Every number is a shortest-form
//! varint and every count is checked against the bytes present.
use vstd::prelude::*;

use crate::codec::{zstd_decoded_bounded, zstd_frame_limits, FileError, CODEC_NONE, CODEC_ZSTD};
use crate::index::{synopsis_of, tile_content, Tile};
use crate::tile::{Triple, tile_bytes, triples_bytes};
use crate::varint::{
    canonical_split, canonicals_bytes, read_canonical_at, read_canonical_run, spec_read_canonical,
    split_canonicals, uvarint_bytes,
};

verus! {

/// Largest prefix-2 blob a record may carry.
pub const PREFIX2_FORMAT_BUDGET: usize = 65536;

/// Largest decompressed tile a family record may hold.
pub const FAMILY_TILE_DECOMPRESSED_MAX: usize = 65536;

/// Flag: this tile continues the previous tile's single leading group.
pub const FAMILY_FLAG_CONTINUES_PREVIOUS: u8 = 1;

/// Flag: the next tile continues this tile's single leading group.
pub const FAMILY_FLAG_CONTINUES_NEXT: u8 = 2;

/// The flags a record may carry.
pub const FAMILY_FLAG_MASK: u8 = 3;

/// One leading value of a tile with where its triples start and, per middle
/// value under it, where those start and how many there are.
#[derive(Clone, Debug, PartialEq, Eq)]
pub struct Prefix2Group {
    pub a: u32,
    pub a_body_offset: u32,
    pub b_entries: Vec<(u32, u32, u32)>,
}

/// A tile's complete two-column directory.
#[derive(Clone, Debug, PartialEq, Eq)]
pub struct Prefix2Meta {
    pub groups: Vec<Prefix2Group>,
}

/// A prefix-2 group as plain values.
pub type GroupView = (u32, u32, Seq<(u32, u32, u32)>);

/// A prefix-2 directory as plain values.
pub open spec fn meta_view(m: Prefix2Meta) -> Seq<GroupView> {
    m.groups@.map_values(|g: Prefix2Group| (g.a, g.a_body_offset, g.b_entries@))
}

/// The middle-value entries encoded from value `pos` on: `k` entries, each a
/// delta from the previous middle value (strictly increasing after the
/// first), an offset and a count, all fitting a `u32`.
pub open spec fn p2_entries(vs: Seq<u64>, pos: int, k: nat, prev: int, first: bool) -> Option<
    (Seq<(u32, u32, u32)>, int),
>
    decreases k,
{
    if k == 0 {
        Some((seq![], pos))
    } else if pos < 0 || pos + 3 > vs.len() {
        None
    } else {
        let b = prev + vs[pos];
        if vs[pos] > u32::MAX || b > u32::MAX || (!first && b <= prev) || vs[pos + 1] > u32::MAX
            || vs[pos + 2] > u32::MAX {
            None
        } else {
            match p2_entries(vs, pos + 3, (k - 1) as nat, b, false) {
                Some((rest, end)) => Some(
                    (seq![(b as u32, vs[pos + 1] as u32, vs[pos + 2] as u32)] + rest, end),
                ),
                None => None,
            }
        }
    }
}

/// The groups encoded from value `pos` on: `k` groups, each a delta from the
/// previous leading value (strictly increasing after the first), an offset,
/// an entry count and its entries.
pub open spec fn p2_groups(vs: Seq<u64>, pos: int, k: nat, prev: int, first: bool) -> Option<
    (Seq<GroupView>, int),
>
    decreases k,
{
    if k == 0 {
        Some((seq![], pos))
    } else if pos < 0 || pos + 3 > vs.len() {
        None
    } else {
        let a = prev + vs[pos];
        if vs[pos] > u32::MAX || a > u32::MAX || (!first && a <= prev) || vs[pos + 1] > u32::MAX {
            None
        } else {
            match p2_entries(vs, pos + 3, vs[pos + 2] as nat, 0, true) {
                Some((bs, mid)) => match p2_groups(vs, mid, (k - 1) as nat, a, false) {
                    Some((rest, end)) => Some(
                        (seq![(a as u32, vs[pos + 1] as u32, bs)] + rest, end),
                    ),
                    None => None,
                },
                None => None,
            }
        }
    }
}

/// The directory a prefix-2 value sequence spells: a group count, then the
/// groups, with nothing after them.
pub open spec fn interp_prefix2(vs: Seq<u64>) -> Option<Seq<GroupView>> {
    if vs.len() == 0 {
        None
    } else {
        match p2_groups(vs, 1, vs[0] as nat, 0, true) {
            Some((gs, end)) => if end == vs.len() {
                Some(gs)
            } else {
                None
            },
            None => None,
        }
    }
}

/// What a prefix-2 blob decodes to.
pub open spec fn spec_prefix2(bytes: Seq<u8>) -> Option<Seq<GroupView>> {
    match canonical_split(bytes) {
        Some(vs) => interp_prefix2(vs),
        None => None,
    }
}

/// Decode the `k` middle-value entries starting at value `pos`.
fn decode_entries(vs: &Vec<u64>, pos: usize, k: u64) -> (r: Option<(Vec<(u32, u32, u32)>, usize)>)
    ensures
        match p2_entries(vs@, pos as int, k as nat, 0, true) {
            Some((bs, end)) => r matches Some((v, e)) && v@ == bs && e == end,
            None => r is None,
        },
{
    let n = vs.len();
    let mut out: Vec<(u32, u32, u32)> = Vec::new();
    let mut p = pos;
    let mut prev: u64 = 0;
    let mut j: u64 = 0;
    while j < k
        invariant
            n == vs@.len(),
            j <= k,
            prev <= u32::MAX,
            p2_entries(vs@, pos as int, k as nat, 0, true) == match p2_entries(
                vs@,
                p as int,
                (k - j) as nat,
                prev as int,
                j == 0,
            ) {
                Some((rest, end)) => Some((out@ + rest, end)),
                None => None,
            },
        decreases k - j,
    {
        if p > n || n - p < 3 {
            return None;
        }
        let d = vs[p];
        let off = vs[p + 1];
        let cnt = vs[p + 2];
        if d > 0xffff_ffff || prev + d > 0xffff_ffff || (j > 0 && d == 0) || off > 0xffff_ffff || cnt
            > 0xffff_ffff {
            return None;
        }
        let b = prev + d;
        let ghost before = out@;
        out.push((b as u32, off as u32, cnt as u32));
        proof {
            let e = seq![(b as u32, off as u32, cnt as u32)];
            assert(out@ == before + e);
            match p2_entries(vs@, p + 3, (k - j - 1) as nat, b as int, false) {
                Some((rest, end)) => {
                    assert(before + (e + rest) =~= out@ + rest);
                },
                None => {},
            }
        }
        p = p + 3;
        prev = b;
        j = j + 1;
    }
    proof {
        assert(out@ + Seq::<(u32, u32, u32)>::empty() =~= out@);
    }
    Some((out, p))
}

/// Interpret a prefix-2 value sequence.
fn interpret_prefix2(vs: &Vec<u64>) -> (r: Option<Vec<Prefix2Group>>)
    ensures
        match interp_prefix2(vs@) {
            Some(gs) => r matches Some(v) && v@.map_values(
                |g: Prefix2Group| (g.a, g.a_body_offset, g.b_entries@),
            ) == gs,
            None => r is None,
        },
{
    let n = vs.len();
    if n == 0 {
        return None;
    }
    let k = vs[0];
    let mut out: Vec<Prefix2Group> = Vec::new();
    let ghost view = |g: Prefix2Group| (g.a, g.a_body_offset, g.b_entries@);
    let mut p: usize = 1;
    let mut prev: u64 = 0;
    let mut g: u64 = 0;
    while g < k
        invariant
            n == vs@.len(),
            k == vs@[0],
            g <= k,
            prev <= u32::MAX,
            view == (|g: Prefix2Group| (g.a, g.a_body_offset, g.b_entries@)),
            p2_groups(vs@, 1, k as nat, 0, true) == match p2_groups(
                vs@,
                p as int,
                (k - g) as nat,
                prev as int,
                g == 0,
            ) {
                Some((rest, end)) => Some((out@.map_values(view) + rest, end)),
                None => None,
            },
        decreases k - g,
    {
        if p > n || n - p < 3 {
            return None;
        }
        let d = vs[p];
        let off = vs[p + 1];
        let bc = vs[p + 2];
        if d > 0xffff_ffff || prev + d > 0xffff_ffff || (g > 0 && d == 0) || off > 0xffff_ffff {
            return None;
        }
        let a = prev + d;
        let (entries, mid) = match decode_entries(vs, p + 3, bc) {
            Some(x) => x,
            None => return None,
        };
        let ghost before = out@;
        let grp = Prefix2Group { a: a as u32, a_body_offset: off as u32, b_entries: entries };
        out.push(grp);
        proof {
            let e = seq![(a as u32, off as u32, grp.b_entries@)];
            assert(out@.map_values(view) =~= before.map_values(view) + e);
            match p2_groups(vs@, mid as int, (k - g - 1) as nat, a as int, false) {
                Some((rest, end)) => {
                    assert(before.map_values(view) + (e + rest) =~= out@.map_values(view) + rest);
                },
                None => {},
            }
        }
        p = mid;
        prev = a;
        g = g + 1;
    }
    if p != n {
        return None;
    }
    proof {
        assert(out@.map_values(view) + Seq::<GroupView>::empty() =~= out@.map_values(view));
    }
    Some(out)
}

/// Decode a prefix-2 blob: shortest-form varints spelling a group count and
/// that many groups of strictly increasing leading values, each with its
/// strictly increasing middle values, and nothing after them.
pub fn decode_prefix2(bytes: &[u8]) -> (r: Result<Prefix2Meta, FileError>)
    ensures
        match spec_prefix2(bytes@) {
            Some(gs) => r matches Ok(m) && meta_view(m) == gs,
            None => r matches Err(FileError::Container(_)),
        },
{
    let vs = match split_canonicals(bytes) {
        Some(v) => v,
        None => return Err(FileError::Container("malformed prefix-2 blob")),
    };
    match interpret_prefix2(&vs) {
        Some(groups) => Ok(Prefix2Meta { groups }),
        None => Err(FileError::Container("malformed prefix-2 blob")),
    }
}

/// Read one shortest-form varint at `*pos`, advancing past it.
pub fn family_varint(bytes: &[u8], pos: &mut usize, what: &'static str) -> (r: Result<u64, FileError>)
    ensures
        old(pos) <= bytes@.len() ==> match spec_read_canonical(bytes@.skip(*old(pos) as int)) {
            Some((v, n)) => r == Ok::<u64, FileError>(v) && *final(pos) == *old(pos) + n,
            None => r matches Err(FileError::Container(_)),
        },
        *old(pos) > bytes@.len() ==> r matches Err(FileError::Container(_)),
        r matches Ok(v) ==> *old(pos) < *final(pos) <= bytes@.len() && bytes@.subrange(
            *old(pos) as int,
            *final(pos) as int,
        ) == uvarint_bytes(v as nat),
{
    let blen = bytes.len();
    match read_canonical_at(bytes, *pos) {
        Some((v, n)) => {
            *pos = *pos + n;
            Ok(v)
        },
        None => Err(FileError::Container(what)),
    }
}

/// Read one shortest-form varint that fits a `u32`.
pub fn family_u32(bytes: &[u8], pos: &mut usize, what: &'static str) -> (r: Result<u32, FileError>)
    ensures
        old(pos) <= bytes@.len() ==> match spec_read_canonical(bytes@.skip(*old(pos) as int)) {
            Some((v, n)) => if v <= u32::MAX {
                r == Ok::<u32, FileError>(v as u32) && *final(pos) == *old(pos) + n
            } else {
                r matches Err(FileError::Container(_))
            },
            None => r matches Err(FileError::Container(_)),
        },
        *old(pos) > bytes@.len() ==> r matches Err(FileError::Container(_)),
{
    let v = family_varint(bytes, pos, what)?;
    if v > 0xffff_ffff {
        return Err(FileError::Container(what));
    }
    Ok(v as u32)
}

/// Take the next `len` bytes at `*pos`, advancing past them.
pub fn family_bytes<'a>(bytes: &'a [u8], pos: &mut usize, len: u64, what: &'static str) -> (r: Result<
    &'a [u8],
    FileError,
>)
    ensures
        *old(pos) + len <= bytes@.len() ==> (r matches Ok(s) && s@ == bytes@.subrange(
            *old(pos) as int,
            *old(pos) + len,
        ) && *final(pos) == *old(pos) + len),
        *old(pos) + len > bytes@.len() ==> r matches Err(FileError::Container(_)),
{
    let blen = bytes.len();
    if *pos > blen || len > (blen - *pos) as u64 {
        return Err(FileError::Container(what));
    }
    let end = *pos + len as usize;
    let s = vstd::slice::slice_subrange(bytes, *pos, end);
    *pos = end;
    Ok(s)
}

/// The continuation flags of tile `i` among `ranges`: whether it repeats the
/// previous tile's range and whether the next tile repeats its own.
pub open spec fn range_flags(ranges: Seq<(u32, u32)>, i: int) -> u8 {
    ((if i > 0 && ranges[i - 1] == ranges[i] {
        1int
    } else {
        0int
    }) + (if i + 1 < ranges.len() && ranges[i + 1] == ranges[i] {
        2int
    } else {
        0int
    })) as u8
}

/// The continuation flags of every tile of a family.
pub fn family_continuation_flags(ranges: &Vec<(u32, u32)>) -> (r: Vec<u8>)
    ensures
        r@.len() == ranges@.len(),
        forall|i: int| 0 <= i < ranges@.len() ==> r@[i] == range_flags(ranges@, i),
{
    let n = ranges.len();
    let mut out: Vec<u8> = Vec::new();
    let mut i: usize = 0;
    while i < n
        invariant
            n == ranges@.len(),
            i <= n,
            out@.len() == i,
            forall|j: int| 0 <= j < i ==> out@[j] == range_flags(ranges@, j),
        decreases n - i,
    {
        let (lo, hi) = ranges[i];
        let prev = i > 0 && ranges[i - 1].0 == lo && ranges[i - 1].1 == hi;
        let next = i + 1 < n && ranges[i + 1].0 == lo && ranges[i + 1].1 == hi;
        let mut flags: u8 = 0;
        if prev {
            flags = flags + FAMILY_FLAG_CONTINUES_PREVIOUS;
        }
        if next {
            flags = flags + FAMILY_FLAG_CONTINUES_NEXT;
        }
        out.push(flags);
        i = i + 1;
    }
    out
}

/// Where triple `k` of a tile starts within the tile's bytes.
pub open spec fn tile_offset(ts: Seq<Triple>, k: int) -> int {
    (uvarint_bytes(ts.len()).len() + triples_bytes(ts.take(k)).len()) as int
}

/// The prefix-2 directory of the first `k` triples of a tile: one group per
/// leading value, one entry per middle value under it, each with the offset
/// of its first triple, and per entry the number of its triples.
pub open spec fn p2_of(ts: Seq<Triple>, k: int) -> Seq<GroupView>
    decreases k,
{
    if k <= 0 {
        seq![]
    } else {
        let prev = p2_of(ts, k - 1);
        let t = ts[k - 1];
        let off = tile_offset(ts, k - 1) as u32;
        if k == 1 || ts[k - 2].0 != t.0 {
            prev.push((t.0, off, seq![(t.1, off, 1u32)]))
        } else {
            let g = prev.last();
            if ts[k - 2].1 != t.1 {
                prev.update(prev.len() - 1, (g.0, g.1, g.2.push((t.1, off, 1u32))))
            } else {
                let e = g.2.last();
                prev.update(
                    prev.len() - 1,
                    (g.0, g.1, g.2.update(g.2.len() - 1, (e.0, e.1, (e.2 + 1) as u32))),
                )
            }
        }
    }
}

/// The complete prefix-2 directory of a tile.
pub open spec fn tile_prefix2(ts: Seq<Triple>) -> Seq<GroupView> {
    p2_of(ts, ts.len() as int)
}

/// The view of the directory built so far: the closed groups, then the open
/// group with its closed entries and its open entry.
pub open spec fn open_p2(
    closed: Seq<GroupView>,
    a: u32,
    a_off: u32,
    entries: Seq<(u32, u32, u32)>,
    b: u32,
    c_off: u32,
    cnt: u32,
) -> Seq<GroupView> {
    closed.push((a, a_off, entries.push((b, c_off, cnt))))
}

/// Middle values strictly ascending within one group.
pub open spec fn entries_inc(es: Seq<(u32, u32, u32)>) -> bool {
    forall|j: int| 0 < j < es.len() ==> es[j - 1].0 < (#[trigger] es[j]).0
}

/// Leading values strictly ascending, and each group's middle values too.
pub open spec fn p2_wf(gs: Seq<GroupView>) -> bool {
    &&& gs.len() <= u64::MAX
    &&& forall|i: int| 0 < i < gs.len() ==> gs[i - 1].0 < (#[trigger] gs[i]).0
    &&& forall|i: int| 0 <= i < gs.len() ==> entries_inc(#[trigger] gs[i].2) && gs[i].2.len() <= u64::MAX
}

/// The values a group's entries are written as: per entry, the delta from
/// the previous middle value, the offset and the count.
pub open spec fn p2_entry_values(es: Seq<(u32, u32, u32)>, prev: int) -> Seq<u64>
    decreases es.len(),
{
    if es.len() == 0 {
        seq![]
    } else {
        seq![(es[0].0 - prev) as u64, es[0].1 as u64, es[0].2 as u64] + p2_entry_values(es.drop_first(), es[0].0 as int)
    }
}

/// The values groups are written as: per group, the delta from the
/// previous leading value, the offset, the entry count and the entries.
pub open spec fn p2_group_values(gs: Seq<GroupView>, prev: int) -> Seq<u64>
    decreases gs.len(),
{
    if gs.len() == 0 {
        seq![]
    } else {
        seq![(gs[0].0 - prev) as u64, gs[0].1 as u64, gs[0].2.len() as u64] + p2_entry_values(gs[0].2, 0)
            + p2_group_values(gs.drop_first(), gs[0].0 as int)
    }
}

/// The values of a prefix-2 directory: the group count, then the groups.
pub open spec fn p2_values(gs: Seq<GroupView>) -> Seq<u64> {
    seq![gs.len() as u64] + p2_group_values(gs, 0)
}

/// The blob a tile's prefix-2 directory is written as, or nothing when it
/// would exceed the format budget.
pub open spec fn prefix2_blob(gs: Seq<GroupView>) -> Seq<u8> {
    let b = canonicals_bytes(p2_values(gs));
    if b.len() <= PREFIX2_FORMAT_BUDGET {
        b
    } else {
        seq![]
    }
}

/// Entry values take three values per entry.
proof fn lemma_entry_values_len(es: Seq<(u32, u32, u32)>, prev: int)
    ensures
        p2_entry_values(es, prev).len() == 3 * es.len(),
    decreases es.len(),
{
    if es.len() > 0 {
        lemma_entry_values_len(es.drop_first(), es[0].0 as int);
    }
}

/// Appending an entry appends its values.
proof fn lemma_entry_values_push(es: Seq<(u32, u32, u32)>, e: (u32, u32, u32), prev: int)
    ensures
        p2_entry_values(es.push(e), prev) == p2_entry_values(es, prev) + seq![
            (e.0 - (if es.len() == 0 { prev } else { es.last().0 as int })) as u64,
            e.1 as u64,
            e.2 as u64,
        ],
    decreases es.len(),
{
    if es.len() == 0 {
        assert(es.push(e).drop_first() =~= Seq::<(u32, u32, u32)>::empty());
        assert(es.push(e)[0] == e);
        assert(p2_entry_values(Seq::<(u32, u32, u32)>::empty(), e.0 as int) =~= Seq::<u64>::empty());
        assert(p2_entry_values(es.push(e), prev) =~= seq![(e.0 - prev) as u64, e.1 as u64, e.2 as u64]);
    } else {
        assert(es.push(e).drop_first() =~= es.drop_first().push(e));
        lemma_entry_values_push(es.drop_first(), e, es[0].0 as int);
        if es.len() > 1 {
            assert(es.drop_first().last() == es.last());
        }
        assert(p2_entry_values(es.push(e), prev) =~= p2_entry_values(es, prev) + seq![
            (e.0 - (if es.len() == 0 { prev } else { es.last().0 as int })) as u64,
            e.1 as u64,
            e.2 as u64,
        ]);
    }
}

/// Appending a group appends its values.
proof fn lemma_group_values_push(gs: Seq<GroupView>, g: GroupView, prev: int)
    ensures
        p2_group_values(gs.push(g), prev) == p2_group_values(gs, prev) + seq![
            (g.0 - (if gs.len() == 0 { prev } else { gs.last().0 as int })) as u64,
            g.1 as u64,
            g.2.len() as u64,
        ] + p2_entry_values(g.2, 0),
    decreases gs.len(),
{
    if gs.len() == 0 {
        assert(gs.push(g).drop_first() =~= Seq::<GroupView>::empty());
        assert(gs.push(g)[0] == g);
        assert(p2_group_values(Seq::<GroupView>::empty(), g.0 as int) =~= Seq::<u64>::empty());
        assert(p2_group_values(gs.push(g), prev) =~= seq![(g.0 - prev) as u64, g.1 as u64, g.2.len() as u64]
            + p2_entry_values(g.2, 0));
    } else {
        assert(gs.push(g).drop_first() =~= gs.drop_first().push(g));
        lemma_group_values_push(gs.drop_first(), g, gs[0].0 as int);
        if gs.len() > 1 {
            assert(gs.drop_first().last() == gs.last());
        }
        assert(p2_group_values(gs.push(g), prev) =~= p2_group_values(gs, prev) + seq![
            (g.0 - (if gs.len() == 0 { prev } else { gs.last().0 as int })) as u64,
            g.1 as u64,
            g.2.len() as u64,
        ] + p2_entry_values(g.2, 0));
    }
}

/// Entry values read back as the entries.
proof fn lemma_entries_decode(vs: Seq<u64>, pos: int, es: Seq<(u32, u32, u32)>, prev: int, first: bool)
    requires
        0 <= pos,
        0 <= prev <= u32::MAX,
        pos + 3 * es.len() <= vs.len(),
        vs.subrange(pos, pos + 3 * es.len()) == p2_entry_values(es, prev),
        entries_inc(es),
        es.len() > 0 ==> es[0].0 >= prev && (!first ==> es[0].0 > prev),
    ensures
        p2_entries(vs, pos, es.len(), prev, first) == Some((es, pos + 3 * es.len())),
    decreases es.len(),
{
    if es.len() > 0 {
        let sub = vs.subrange(pos, pos + 3 * es.len());
        assert(vs[pos] == sub[0] && vs[pos + 1] == sub[1] && vs[pos + 2] == sub[2]);
        let rest = es.drop_first();
        lemma_entry_values_len(rest, es[0].0 as int);
        lemma_entry_values_len(es, prev);
        let rv = p2_entry_values(rest, es[0].0 as int);
        assert(p2_entry_values(es, prev) == seq![(es[0].0 - prev) as u64, es[0].1 as u64, es[0].2 as u64] + rv);
        assert(sub.subrange(3, sub.len() as int) =~= rv);
        assert(vs.subrange(pos + 3, pos + 3 + 3 * rest.len()) =~= sub.subrange(3, sub.len() as int));
        assert(entries_inc(rest)) by {
            assert forall|j: int| 0 < j < rest.len() implies rest[j - 1].0 < (#[trigger] rest[j]).0 by {
                assert(rest[j] == es[j + 1] && rest[j - 1] == es[j]);
            }
        }
        if rest.len() > 0 {
            assert(es[1].0 > es[0].0);
        }
        lemma_entries_decode(vs, pos + 3, rest, es[0].0 as int, false);
        assert(seq![(es[0].0, es[0].1, es[0].2)] + rest =~= es);
    }
}

/// Group values read back as the groups.
proof fn lemma_groups_decode(vs: Seq<u64>, pos: int, gs: Seq<GroupView>, prev: int, first: bool)
    requires
        0 <= pos,
        0 <= prev <= u32::MAX,
        pos + p2_group_values(gs, prev).len() <= vs.len(),
        vs.subrange(pos, pos + p2_group_values(gs, prev).len()) == p2_group_values(gs, prev),
        p2_wf(gs),
        gs.len() > 0 ==> gs[0].0 >= prev && (!first ==> gs[0].0 > prev),
    ensures
        p2_groups(vs, pos, gs.len(), prev, first) == Some((gs, pos + p2_group_values(gs, prev).len())),
    decreases gs.len(),
{
    if gs.len() > 0 {
        let all = p2_group_values(gs, prev);
        let sub = vs.subrange(pos, pos + all.len());
        let es = gs[0].2;
        let rest = gs.drop_first();
        lemma_entry_values_len(es, 0);
        let ev = p2_entry_values(es, 0);
        let rv = p2_group_values(rest, gs[0].0 as int);
        assert(all == seq![(gs[0].0 - prev) as u64, gs[0].1 as u64, es.len() as u64] + ev + rv);
        assert(vs[pos] == sub[0] && vs[pos + 1] == sub[1] && vs[pos + 2] == sub[2]);
        assert(sub.subrange(3, 3 + 3 * es.len() as int) =~= ev);
        assert(sub.subrange(3 + 3 * es.len() as int, all.len() as int) =~= rv);
        assert(vs.subrange(pos + 3, pos + 3 + 3 * es.len()) =~= sub.subrange(3, 3 + 3 * es.len() as int));
        assert(entries_inc(es));
        lemma_entries_decode(vs, pos + 3, es, 0, true);
        let mid = pos + 3 + 3 * es.len();
        assert(vs.subrange(mid, mid + rv.len()) =~= sub.subrange(3 + 3 * es.len() as int, all.len() as int));
        assert(p2_wf(rest)) by {
            assert forall|i: int| 0 < i < rest.len() implies rest[i - 1].0 < (#[trigger] rest[i]).0 by {
                assert(rest[i] == gs[i + 1] && rest[i - 1] == gs[i]);
            }
            assert forall|i: int| 0 <= i < rest.len() implies entries_inc(#[trigger] rest[i].2) && rest[i].2.len() <= u64::MAX by {
                assert(rest[i] == gs[i + 1]);
            }
        }
        if rest.len() > 0 {
            assert(gs[1].0 > gs[0].0);
        }
        lemma_groups_decode(vs, mid, rest, gs[0].0 as int, false);
        assert(prev + vs[pos] == gs[0].0);
        assert(vs[pos + 2] as nat == es.len());
        assert(vs[pos + 1] as u32 == gs[0].1);
        assert((gs.len() - 1) as nat == rest.len());
        assert(p2_entries(vs, pos + 3, vs[pos + 2] as nat, 0, true) == Some((es, mid)));
        assert(seq![(gs[0].0, gs[0].1, es)] + rest =~= gs);
        assert(pos + all.len() == mid + rv.len());
    }
}

/// A well-formed directory's blob, when written, decodes to it.
pub proof fn lemma_prefix2_roundtrip(gs: Seq<GroupView>)
    requires
        p2_wf(gs),
    ensures
        spec_prefix2(canonicals_bytes(p2_values(gs))) == Some(gs),
{
    let vs = p2_values(gs);
    let gv = p2_group_values(gs, 0);
    assert(vs.subrange(1, 1 + gv.len() as int) =~= gv);
    lemma_groups_decode(vs, 1, gs, 0, true);
    assert(vs[0] as nat == gs.len());
    assert(vs.len() == 1 + gv.len());
    assert(interp_prefix2(vs) == Some(gs));
    let b = canonicals_bytes(vs);
    assert(exists|w: Seq<u64>| canonicals_bytes(w) == b);
    let w = choose|w: Seq<u64>| canonicals_bytes(w) == b;
    crate::varint::lemma_canonicals_unique(w, vs);
}

/// The prefix-2 directory of an ascending run is well formed, its last
/// group led by the last triple's leading value with its last entry the
/// last triple's middle value.
proof fn lemma_p2_of_wf(ts: Seq<Triple>, k: int)
    requires
        crate::tile::sorted_triples(ts),
        1 <= k <= ts.len(),
        ts.len() <= u64::MAX,
    ensures
        p2_wf(p2_of(ts, k)),
        p2_of(ts, k).len() <= k,
        forall|i: int| 0 <= i < p2_of(ts, k).len() ==> (#[trigger] p2_of(ts, k)[i]).2.len() <= k,
        p2_of(ts, k).len() > 0,
        p2_of(ts, k).last().0 == ts[k - 1].0,
        p2_of(ts, k).last().2.len() > 0,
        p2_of(ts, k).last().2.last().0 == ts[k - 1].1,
    decreases k,
{
    let gs = p2_of(ts, k);
    let t = ts[k - 1];
    if k == 1 {
        assert(p2_of(ts, 0) =~= Seq::<GroupView>::empty());
        let g = (t.0, tile_offset(ts, 0) as u32, seq![(t.1, tile_offset(ts, 0) as u32, 1u32)]);
        assert(gs =~= seq![g]);
        assert(entries_inc(g.2));
        assert(gs[0] == g);
    } else {
        lemma_p2_of_wf(ts, k - 1);
        let prev = p2_of(ts, k - 1);
        let off = tile_offset(ts, k - 1) as u32;
        assert(crate::tile::triple_lt(ts[k - 2], t));
        if ts[k - 2].0 != t.0 {
            let g = (t.0, off, seq![(t.1, off, 1u32)]);
            assert(gs == prev.push(g));
            assert(entries_inc(g.2));
            assert forall|i: int| 0 < i < gs.len() implies gs[i - 1].0 < (#[trigger] gs[i]).0 by {
                if i < gs.len() - 1 {
                    assert(gs[i - 1] == prev[i - 1] && gs[i] == prev[i]);
                } else {
                    assert(gs[i - 1] == prev.last());
                }
            }
            assert forall|i: int| 0 <= i < gs.len() implies entries_inc(#[trigger] gs[i].2) && gs[i].2.len() <= k by {
                if i < gs.len() - 1 {
                    assert(gs[i] == prev[i]);
                }
            }
        } else {
            let g = prev.last();
            if ts[k - 2].1 != t.1 {
                let ng = (g.0, g.1, g.2.push((t.1, off, 1u32)));
                assert(gs == prev.update(prev.len() - 1, ng));
                assert(entries_inc(g.2));
                assert(entries_inc(ng.2)) by {
                    assert forall|j: int| 0 < j < ng.2.len() implies ng.2[j - 1].0 < (#[trigger] ng.2[j]).0 by {
                        if j < ng.2.len() - 1 {
                            assert(ng.2[j - 1] == g.2[j - 1] && ng.2[j] == g.2[j]);
                        } else {
                            assert(ng.2[j - 1] == g.2.last());
                        }
                    }
                }
                assert forall|i: int| 0 < i < gs.len() implies gs[i - 1].0 < (#[trigger] gs[i]).0 by {
                    assert(prev[i - 1].0 < prev[i].0);
                }
                assert forall|i: int| 0 <= i < gs.len() implies entries_inc(#[trigger] gs[i].2) && gs[i].2.len() <= k by {
                    if i < gs.len() - 1 {
                        assert(gs[i] == prev[i]);
                    }
                }
            } else {
                let e = g.2.last();
                let ne = g.2.update(g.2.len() - 1, (e.0, e.1, (e.2 + 1) as u32));
                let ng = (g.0, g.1, ne);
                assert(gs == prev.update(prev.len() - 1, ng));
                assert(entries_inc(g.2));
                assert(entries_inc(ne)) by {
                    assert forall|j: int| 0 < j < ne.len() implies ne[j - 1].0 < (#[trigger] ne[j]).0 by {
                        assert(g.2[j - 1].0 < g.2[j].0);
                    }
                }
                assert forall|i: int| 0 < i < gs.len() implies gs[i - 1].0 < (#[trigger] gs[i]).0 by {
                    assert(prev[i - 1].0 < prev[i].0);
                }
                assert forall|i: int| 0 <= i < gs.len() implies entries_inc(#[trigger] gs[i].2) && gs[i].2.len() <= k by {
                    if i < gs.len() - 1 {
                        assert(gs[i] == prev[i]);
                    }
                }
            }
        }
    }
}

/// The prefix-2 directory of a valid tile is well formed.
pub proof fn lemma_tile_prefix2_wf(ts: Seq<Triple>)
    requires
        crate::tile::tile_wf(ts),
        ts.len() <= u64::MAX,
    ensures
        p2_wf(tile_prefix2(ts)),
{
    lemma_p2_of_wf(ts, ts.len() as int);
}

/// Append the values of a group's entries.
#[verifier::rlimit(40)]
#[verifier::spinoff_prover]
fn push_entry_values(out: &mut Vec<u64>, es: &Vec<(u32, u32, u32)>)
    requires
        entries_inc(es@),
    ensures
        final(out)@ == old(out)@ + p2_entry_values(es@, 0),
{
    let n = es.len();
    let mut prev: u32 = 0;
    let mut j: usize = 0;
    while j < n
        invariant
            n == es@.len(),
            j <= n,
            entries_inc(es@),
            prev == (if j == 0 { 0 } else { es@[j - 1].0 }),
            out@ == old(out)@ + p2_entry_values(es@.take(j as int), 0),
        decreases n - j,
    {
        let (b, off, cnt) = es[j];
        proof {
            if j > 0 {
                assert(es@[j - 1].0 < es@[j as int].0);
            }
            lemma_entry_values_push(es@.take(j as int), es@[j as int], 0);
            assert(es@.take(j + 1) =~= es@.take(j as int).push(es@[j as int]));
            if j > 0 {
                assert(es@.take(j as int).last() == es@[j - 1]);
            }
        }
        out.push((b - prev) as u64);
        out.push(off as u64);
        out.push(cnt as u64);
        proof {
            assert(out@ =~= old(out)@ + p2_entry_values(es@.take(j + 1), 0));
        }
        prev = b;
        j = j + 1;
    }
    proof {
        assert(es@.take(n as int) =~= es@);
    }
}

/// Write a well-formed prefix-2 directory as its blob: the shortest
/// encodings of its values, or nothing beyond the format budget.
pub fn encode_prefix2(groups: &Vec<Prefix2Group>) -> (r: Vec<u8>)
    requires
        p2_wf(groups@.map_values(|g: Prefix2Group| (g.a, g.a_body_offset, g.b_entries@))),
    ensures
        r@ == prefix2_blob(groups@.map_values(|g: Prefix2Group| (g.a, g.a_body_offset, g.b_entries@))),
{
    let ghost view = |g: Prefix2Group| (g.a, g.a_body_offset, g.b_entries@);
    let ghost gs = groups@.map_values(view);
    let n = groups.len();
    let mut vals: Vec<u64> = Vec::new();
    vals.push(n as u64);
    let mut prev: u32 = 0;
    let mut i: usize = 0;
    while i < n
        invariant
            n == groups@.len(),
            i <= n,
            view == (|g: Prefix2Group| (g.a, g.a_body_offset, g.b_entries@)),
            gs == groups@.map_values(view),
            p2_wf(gs),
            prev == (if i == 0 { 0 } else { gs[i - 1].0 }),
            vals@ == seq![n as u64] + p2_group_values(gs.take(i as int), 0),
        decreases n - i,
    {
        let g = &groups[i];
        proof {
            assert(gs[i as int] == view(*g));
            if i > 0 {
                assert(gs[i - 1].0 < gs[i as int].0);
            }
            assert(entries_inc(gs[i as int].2));
            lemma_group_values_push(gs.take(i as int), gs[i as int], 0);
            assert(gs.take(i + 1) =~= gs.take(i as int).push(gs[i as int]));
            if i > 0 {
                assert(gs.take(i as int).last() == gs[i - 1]);
            }
        }
        vals.push((g.a - prev) as u64);
        vals.push(g.a_body_offset as u64);
        vals.push(g.b_entries.len() as u64);
        push_entry_values(&mut vals, &g.b_entries);
        proof {
            assert(vals@ =~= seq![n as u64] + p2_group_values(gs.take(i + 1), 0));
        }
        prev = g.a;
        i = i + 1;
    }
    proof {
        assert(gs.take(n as int) =~= gs);
        assert(vals@ =~= p2_values(gs));
    }
    let mut out: Vec<u8> = Vec::new();
    crate::varint::write_canonicals(&mut out, &vals);
    proof {
        assert(out@ =~= canonicals_bytes(p2_values(gs)));
    }
    if out.len() > PREFIX2_FORMAT_BUDGET {
        return Vec::new();
    }
    out
}

/// Compute the prefix-2 directory of a tile whose bytes fit a `u32` offset.
pub fn compute_prefix2(ts: &Vec<Triple>) -> (r: Vec<Prefix2Group>)
    requires
        ts@.len() > 0,
        tile_bytes(ts@).len() <= u32::MAX,
    ensures
        r@.map_values(|g: Prefix2Group| (g.a, g.a_body_offset, g.b_entries@)) == tile_prefix2(ts@),
{
    let ghost view = |g: Prefix2Group| (g.a, g.a_body_offset, g.b_entries@);
    let n = ts.len();
    let head = crate::varint::uvarint_len(n as u64);
    proof {
        crate::tile::lemma_triples_prefix(ts@, 0);
        crate::tile::lemma_triples_prefix(ts@, n as int);
        assert(ts@.take(n as int) =~= ts@);
        assert(ts@.take(0) =~= Seq::<Triple>::empty());
    }
    let mut closed: Vec<Prefix2Group> = Vec::new();
    let first = ts[0];
    let mut a: u32 = first.0;
    let mut a_off: u32 = head as u32;
    let mut entries: Vec<(u32, u32, u32)> = Vec::new();
    let mut b: u32 = first.1;
    let mut c_off: u32 = head as u32;
    let mut cnt: u32 = 1;
    let mut off: u64 = head + crate::tile::triple_len(first);
    proof {
        crate::tile::lemma_triples_prefix(ts@, 1);
        assert(ts@.take(1).drop_last() =~= ts@.take(0));
        assert(p2_of(ts@, 0) =~= Seq::<GroupView>::empty());
        assert(p2_of(ts@, 1) =~= open_p2(closed@.map_values(view), a, a_off, entries@, b, c_off, cnt));
    }
    proof {
        crate::tile::lemma_triples_len(ts@);
    }
    let mut i: usize = 1;
    while i < n
        invariant
            n == ts@.len(),
            n <= u32::MAX,
            1 <= i <= n,
            tile_bytes(ts@).len() <= u32::MAX,
            view == (|g: Prefix2Group| (g.a, g.a_body_offset, g.b_entries@)),
            off == tile_offset(ts@, i as int),
            off <= tile_bytes(ts@).len(),
            cnt <= i,
            a == ts@[i - 1].0,
            b == ts@[i - 1].1,
            p2_of(ts@, i as int) == open_p2(closed@.map_values(view), a, a_off, entries@, b, c_off, cnt),
        decreases n - i,
    {
        let t = ts[i];
        proof {
            crate::tile::lemma_triples_prefix(ts@, i as int);
            crate::tile::lemma_triples_prefix(ts@, i + 1);
            assert(tile_bytes(ts@) =~= uvarint_bytes(n as nat) + triples_bytes(ts@));
        }
        let here = off as u32;
        let ghost prev_view = open_p2(closed@.map_values(view), a, a_off, entries@, b, c_off, cnt);
        let ghost old_closed = closed@.map_values(view);
        let ghost old_entries = entries@;
        proof {
            assert(p2_of(ts@, i as int) == prev_view);
            assert(ts@[i as int] == t);
            assert(here == tile_offset(ts@, i as int) as u32);
        }
        if t.0 != a {
            let ghost before = closed@;
            let mut es = entries;
            es.push((b, c_off, cnt));
            closed.push(Prefix2Group { a, a_body_offset: a_off, b_entries: es });
            proof {
                assert(closed@.map_values(view) =~= before.map_values(view).push(view(closed@.last())));
            }
            entries = Vec::new();
            proof {
                assert(closed@.map_values(view) =~= prev_view);
                assert(entries@ =~= Seq::<(u32, u32, u32)>::empty());
                assert(ts@[i - 1].0 != t.0);
                assert(p2_of(ts@, i + 1) == prev_view.push((t.0, here, seq![(t.1, here, 1u32)])));
            }
            a = t.0;
            a_off = here;
            b = t.1;
            c_off = here;
            cnt = 1;
            proof {
                assert(p2_of(ts@, i + 1) =~= open_p2(closed@.map_values(view), a, a_off, entries@, b, c_off, cnt));
            }
        } else if t.1 != b {
            entries.push((b, c_off, cnt));
            proof {
                assert(prev_view.last() == (a, a_off, entries@));
                assert(ts@[i - 1].0 == t.0 && ts@[i - 1].1 != t.1);
                assert(p2_of(ts@, i + 1) == prev_view.update(prev_view.len() - 1, (a, a_off, entries@.push((t.1, here, 1u32)))));
            }
            b = t.1;
            c_off = here;
            cnt = 1;
            proof {
                assert(p2_of(ts@, i + 1) =~= open_p2(closed@.map_values(view), a, a_off, entries@, b, c_off, cnt));
            }
        } else {
            proof {
                assert(ts@[i - 1].0 == t.0 && ts@[i - 1].1 == t.1);
                let g = prev_view.last();
                assert(g == (a, a_off, entries@.push((b, c_off, cnt))));
                assert(p2_of(ts@, i + 1) == prev_view.update(prev_view.len() - 1, (g.0, g.1, g.2.update(g.2.len() - 1, (b, c_off, (cnt + 1) as u32)))));
                let newe = (b, c_off, (cnt + 1) as u32);
                assert(g.2.update(g.2.len() - 1, newe) =~= entries@.push(newe));
                assert(prev_view.update(prev_view.len() - 1, (a, a_off, entries@.push(newe))) =~= closed@.map_values(view).push((a, a_off, entries@.push(newe))));
            }
            cnt = cnt + 1;
            proof {
                assert(p2_of(ts@, i + 1) =~= open_p2(closed@.map_values(view), a, a_off, entries@, b, c_off, cnt));
            }
        }
        off = off + crate::tile::triple_len(t);
        i = i + 1;
    }
    let ghost before = closed@;
    let mut es = entries;
    es.push((b, c_off, cnt));
    closed.push(Prefix2Group { a, a_body_offset: a_off, b_entries: es });
    proof {
        assert(closed@.map_values(view) =~= before.map_values(view).push(view(closed@.last())));
        assert(ts@.take(n as int) =~= ts@);
    }
    closed
}

/// The physical tile a family record's stored payload holds: the payload
/// itself when uncompressed, or the single zstd frame it must consist of,
/// within the fixed tile limit either way.
pub open spec fn family_tile(codec: u8, payload: Seq<u8>) -> Option<Seq<u8>> {
    if codec == CODEC_NONE {
        if payload.len() <= FAMILY_TILE_DECOMPRESSED_MAX {
            Some(payload)
        } else {
            None
        }
    } else if codec == CODEC_ZSTD {
        match zstd_frame_limits(payload) {
            Some((window, content)) => if window > FAMILY_TILE_DECOMPRESSED_MAX || (content != 0
                && content > FAMILY_TILE_DECOMPRESSED_MAX) {
                None
            } else {
                match zstd_decoded_bounded(payload, (FAMILY_TILE_DECOMPRESSED_MAX + 1) as u64) {
                    Some((out, consumed)) => if out.len() > FAMILY_TILE_DECOMPRESSED_MAX
                        || consumed != payload.len() {
                        None
                    } else {
                        Some(out)
                    },
                    None => None,
                }
            },
            None => None,
        }
    } else {
        None
    }
}

/// Decompress one family record: exactly one bounded frame (or the raw
/// bytes), never more than one physical tile.
pub fn decompress_family_tile_exact(codec: u8, bytes: &[u8]) -> (r: Result<Vec<u8>, FileError>)
    ensures
        match family_tile(codec, bytes@) {
            Some(t) => r matches Ok(v) && v@ == t,
            None => r is Err,
        },
        codec != CODEC_NONE && codec != CODEC_ZSTD ==> r == Err::<Vec<u8>, FileError>(
            FileError::UnknownCodec(codec),
        ),
{
    if codec == CODEC_NONE {
        if bytes.len() > FAMILY_TILE_DECOMPRESSED_MAX {
            return Err(FileError::Container("family tile exceeds fixed decompressed limit"));
        }
        return Ok(vstd::slice::slice_to_vec(bytes));
    }
    if codec != CODEC_ZSTD {
        return Err(FileError::UnknownCodec(codec));
    }
    let (window, content) = match crate::codec::zstd_frame_header(bytes) {
        Some(x) => x,
        None => return Err(FileError::Decompress),
    };
    if window > FAMILY_TILE_DECOMPRESSED_MAX as u64 {
        return Err(FileError::Container("family zstd window exceeds fixed limit"));
    }
    if content != 0 && content > FAMILY_TILE_DECOMPRESSED_MAX as u64 {
        return Err(FileError::Container("family zstd content size exceeds fixed limit"));
    }
    let (out, consumed) = match crate::codec::zstd_decode_bounded(
        bytes,
        (FAMILY_TILE_DECOMPRESSED_MAX + 1) as u64,
    ) {
        Some(x) => x,
        None => return Err(FileError::Decompress),
    };
    if out.len() > FAMILY_TILE_DECOMPRESSED_MAX {
        return Err(FileError::Container("family tile exceeds fixed decompressed limit"));
    }
    if consumed != bytes.len() as u64 {
        return Err(FileError::Container("family zstd payload has trailing bytes"));
    }
    Ok(out)
}

/// A family payload as plain values: the tile count, the directory's
/// varints, each record's prefix-2 blob and stored payload (the first
/// sibling's records, then the second's), and the trailer's varints.
pub type FamilyFields = (nat, Seq<u64>, Seq<(Seq<u8>, Seq<u8>)>, Seq<u64>);

/// A sequence of record byte pairs as plain values.
pub open spec fn records_view(rs: Seq<(Vec<u8>, Vec<u8>)>) -> Seq<(Seq<u8>, Seq<u8>)> {
    rs.map_values(|r: (Vec<u8>, Vec<u8>)| (r.0@, r.1@))
}

/// The records laid end to end, each as its prefix-2 blob then its payload.
pub open spec fn records_bytes(rs: Seq<(Seq<u8>, Seq<u8>)>) -> Seq<u8>
    decreases rs.len(),
{
    if rs.len() == 0 {
        seq![]
    } else {
        records_bytes(rs.drop_last()) + rs.last().0 + rs.last().1
    }
}

/// The bytes of a family payload: the tile count, the directory and trailer
/// lengths, the directory, the records and the trailer.
pub open spec fn family_wire(f: FamilyFields) -> Seq<u8> {
    let d = canonicals_bytes(f.1);
    let t = canonicals_bytes(f.3);
    uvarint_bytes(f.0) + uvarint_bytes(d.len()) + uvarint_bytes(t.len()) + d + records_bytes(f.2)
        + t
}

/// The smallest leading value of tile `i`: the running sum of the minimum
/// deltas.
pub open spec fn fam_min(d: Seq<u64>, i: int) -> int
    decreases i + 1,
{
    if i < 0 {
        0
    } else {
        fam_min(d, i - 1) + d[2 * i]
    }
}

/// The largest leading value of tile `i`.
pub open spec fn fam_max(d: Seq<u64>, i: int) -> int {
    fam_min(d, i) + d[2 * i + 1]
}

/// Whether tiles `i` and `j` have the same leading range.
pub open spec fn same_range(d: Seq<u64>, i: int, j: int) -> bool {
    fam_min(d, i) == fam_min(d, j) && fam_max(d, i) == fam_max(d, j)
}

/// The continuation flags tile `i` of `n` must carry.
pub open spec fn dir_flags(d: Seq<u64>, n: nat, i: int) -> int {
    (if i > 0 && same_range(d, i - 1, i) {
        1int
    } else {
        0int
    }) + (if i + 1 < n && same_range(d, i + 1, i) {
        2int
    } else {
        0int
    })
}

/// Field `j` (flags, payload length, prefix-2 length) of record `k`, where
/// records `0..n` belong to the first sibling and `n..2n` to the second.
pub open spec fn entry_at(d: Seq<u64>, n: nat, k: int, j: int) -> u64 {
    d[2 * n + 3 * k + j]
}

/// The tile a record belongs to within its sibling.
pub open spec fn sib(n: nat, k: int) -> int {
    if k < n {
        k
    } else {
        k - n
    }
}

/// The synopsis stored for record `k`.
pub open spec fn syn_at(t: Seq<u64>, k: int) -> (u32, u32, u32, u32) {
    (
        t[4 * k] as u32,
        (t[4 * k] + t[4 * k + 1]) as u32,
        t[4 * k + 2] as u32,
        (t[4 * k + 2] + t[4 * k + 3]) as u32,
    )
}

/// The directory fields of an `n`-tile family are consistent: leading
/// ranges fit a `u32`; a repeated range is a single leading value and any
/// other range starts past the previous one; each record carries the flags
/// its range position implies and a prefix-2 blob within budget.
pub open spec fn dir_ok(d: Seq<u64>, n: nat) -> bool {
    &&& d.len() == 8 * n
    &&& forall|i: int| 0 <= i < n ==> #[trigger] fam_max(d, i) <= u32::MAX
    &&& forall|i: int|
        0 < i < n ==> (#[trigger] same_range(d, i - 1, i) ==> d[2 * i + 1] == 0) && (!same_range(
            d,
            i - 1,
            i,
        ) ==> fam_min(d, i) > fam_max(d, i - 1))
    &&& forall|k: int| 0 <= k < 2 * n ==> #[trigger] entry_ok(d, n, k)
}

/// Record `k` carries the flags its range position implies and a prefix-2
/// blob within budget.
pub open spec fn entry_ok(d: Seq<u64>, n: nat, k: int) -> bool {
    entry_at(d, n, k, 0) == dir_flags(d, n, sib(n, k)) && entry_at(d, n, k, 2) <= PREFIX2_FORMAT_BUDGET
}

/// Every synopsis of the trailer fits a `u32` at both ends.
pub open spec fn trailer_ok(t: Seq<u64>, n: nat) -> bool {
    &&& t.len() == 8 * n
    &&& forall|k: int|
        0 <= k < 2 * n ==> #[trigger] t[4 * k] + t[4 * k + 1] <= u32::MAX && t[4 * k + 2] + t[4 * k
            + 3] <= u32::MAX && t[4 * k] <= u32::MAX && t[4 * k + 2] <= u32::MAX
}

/// A family payload is consistent in its framing.
pub open spec fn family_wf(f: FamilyFields) -> bool {
    let (n, d, rs, t) = f;
    &&& dir_ok(d, n)
    &&& trailer_ok(t, n)
    &&& rs.len() == 2 * n
    &&& forall|k: int|
        0 <= k < 2 * n ==> (#[trigger] rs[k]).0.len() == entry_at(d, n, k, 2) && rs[k].1.len()
            == entry_at(d, n, k, 1)
}

/// Record `k`'s payload is one physical tile whose leading range and
/// synopsis are the ones the directory and trailer record, and whose
/// prefix-2 blob, when present, is the tile's own directory.
pub open spec fn record_ok(f: FamilyFields, codec: u8, k: int) -> bool {
    let (n, d, rs, t) = f;
    let i = sib(n, k);
    match family_tile(codec, rs[k].1) {
        Some(tb) => match tile_content(tb) {
            Some(ts) => ts[0].0 == fam_min(d, i) && ts.last().0 == fam_max(d, i) && synopsis_of(ts)
                == syn_at(t, k) && (rs[k].0.len() == 0 || spec_prefix2(rs[k].0) == Some(
                tile_prefix2(ts),
            )),
            None => false,
        },
        None => false,
    }
}

/// Every record of a family is valid.
pub open spec fn records_ok(f: FamilyFields, codec: u8) -> bool {
    forall|k: int| 0 <= k < 2 * f.0 ==> #[trigger] record_ok(f, codec, k)
}

/// Running sums of unsigned deltas are never negative, and the minimum never
/// exceeds the maximum.
pub proof fn lemma_fam_min_nonneg(d: Seq<u64>, i: int)
    ensures
        fam_min(d, i) >= 0,
        i >= 0 ==> fam_min(d, i) <= fam_max(d, i),
    decreases i + 1,
{
    if i >= 0 {
        lemma_fam_min_nonneg(d, i - 1);
    }
}

/// Check a family directory's fields and compute its leading ranges.
pub(crate) fn validate_directory(d: &Vec<u64>, n: usize) -> (r: Result<Vec<(u32, u32)>, FileError>)
    requires
        d@.len() == 8 * n,
    ensures
        dir_ok(d@, n as nat) <==> r is Ok,
        r matches Ok(rs) ==> rs@.len() == n && forall|i: int|
            0 <= i < n ==> #[trigger] rs@[i] == (fam_min(d@, i) as u32, fam_max(d@, i) as u32),
        r matches Err(e) ==> e is Container,
{
    let dlen = d.len();
    let mut rs: Vec<(u32, u32)> = Vec::new();
    let mut prev_min: u64 = 0;
    let mut i: usize = 0;
    while i < n
        invariant
            d@.len() == 8 * n,
            dlen == d@.len(),
            i <= n,
            rs@.len() == i,
            prev_min == fam_min(d@, i - 1),
            prev_min <= u32::MAX,
            forall|j: int| 0 <= j < i ==> #[trigger] fam_max(d@, j) <= u32::MAX,
            forall|j: int|
                0 <= j < i ==> #[trigger] rs@[j] == (fam_min(d@, j) as u32, fam_max(d@, j) as u32),
            forall|j: int|
                0 < j < i ==> (#[trigger] same_range(d@, j - 1, j) ==> d@[2 * j + 1] == 0) && (
                !same_range(d@, j - 1, j) ==> fam_min(d@, j) > fam_max(d@, j - 1)),
        decreases n - i,
    {
        let delta = d[2 * i];
        let span = d[2 * i + 1];
        proof {
            assert(fam_min(d@, i as int) == prev_min + delta);
        }
        if delta > 0xffff_ffff || prev_min + delta > 0xffff_ffff {
            proof {
                assert(fam_max(d@, i as int) > u32::MAX);
            }
            return Err(FileError::Container("family minimum overflows u32"));
        }
        let lo = prev_min + delta;
        if span > 0xffff_ffff || lo + span > 0xffff_ffff {
            proof {
                assert(fam_max(d@, i as int) > u32::MAX);
            }
            return Err(FileError::Container("family maximum overflows u32"));
        }
        let hi = lo + span;
        if i > 0 {
            let (plo, phi) = rs[i - 1];
            proof {
                assert(rs@[i - 1] == (fam_min(d@, i - 1) as u32, fam_max(d@, i - 1) as u32));
            }
            if plo as u64 == lo && phi as u64 == hi {
                if span != 0 {
                    proof {
                        assert(same_range(d@, i - 1, i as int));
                    }
                    return Err(FileError::Container("continuation range is not a single leading group"));
                }
            } else if lo <= phi as u64 {
                proof {
                    assert(!same_range(d@, i - 1, i as int));
                }
                return Err(FileError::Container("family ranges overlap"));
            }
        }
        rs.push((lo as u32, hi as u32));
        prev_min = lo;
        i = i + 1;
    }
    let mut k: usize = 0;
    while k < 2 * n
        invariant
            d@.len() == 8 * n,
            dlen == d@.len(),
            k <= 2 * n,
            rs@.len() == n,
            forall|j: int| 0 <= j < n ==> #[trigger] fam_max(d@, j) <= u32::MAX,
            forall|j: int|
                0 <= j < n ==> #[trigger] rs@[j] == (fam_min(d@, j) as u32, fam_max(d@, j) as u32),
            forall|j: int|
                0 < j < n ==> (#[trigger] same_range(d@, j - 1, j) ==> d@[2 * j + 1] == 0) && (
                !same_range(d@, j - 1, j) ==> fam_min(d@, j) > fam_max(d@, j - 1)),
            forall|j: int| 0 <= j < k ==> #[trigger] entry_ok(d@, n as nat, j),
        decreases 2 * n - k,
    {
        let t = if k < n {
            k
        } else {
            k - n
        };
        let flags = d[2 * n + 3 * k];
        let p2 = d[2 * n + 3 * k + 2];
        let (lo, hi) = rs[t];
        let prev = t > 0 && rs[t - 1].0 == lo && rs[t - 1].1 == hi;
        let next = t + 1 < n && rs[t + 1].0 == lo && rs[t + 1].1 == hi;
        proof {
            lemma_fam_min_nonneg(d@, t as int);
            lemma_fam_min_nonneg(d@, t - 1);
            lemma_fam_min_nonneg(d@, t + 1);
            assert(rs@[t as int] == (fam_min(d@, t as int) as u32, fam_max(d@, t as int) as u32));
            assert(fam_max(d@, t as int) <= u32::MAX);
            if t > 0 {
                assert(rs@[t - 1] == (fam_min(d@, t - 1) as u32, fam_max(d@, t - 1) as u32));
                assert(fam_max(d@, t - 1) <= u32::MAX);
                assert(prev == same_range(d@, t - 1, t as int));
            }
            if t + 1 < n {
                assert(rs@[t + 1] == (fam_min(d@, t + 1) as u32, fam_max(d@, t + 1) as u32));
                assert(fam_max(d@, t + 1) <= u32::MAX);
                assert(next == same_range(d@, t + 1, t as int));
            }
        }
        let expected: u64 = (if prev {
            1u64
        } else {
            0u64
        }) + (if next {
            2u64
        } else {
            0u64
        });
        proof {
            assert(sib(n as nat, k as int) == t);
            assert(expected == dir_flags(d@, n as nat, t as int));
        }
        if flags != expected {
            proof {
                assert(!entry_ok(d@, n as nat, k as int));
            }
            return Err(FileError::Container("impossible family continuation"));
        }
        if p2 > PREFIX2_FORMAT_BUDGET as u64 {
            proof {
                assert(!entry_ok(d@, n as nat, k as int));
            }
            return Err(FileError::Container("prefix-2 blob exceeds fixed budget"));
        }
        proof {
            assert(d@[2 * n + 3 * k] == flags);
            assert(entry_at(d@, n as nat, k as int, 0) == flags);
            assert(entry_at(d@, n as nat, k as int, 0) == dir_flags(d@, n as nat, sib(n as nat, k as int)));
            assert(entry_at(d@, n as nat, k as int, 2) <= PREFIX2_FORMAT_BUDGET);
            assert(entry_ok(d@, n as nat, k as int));
        }
        k = k + 1;
    }
    Ok(rs)
}

/// The bytes the first `k` records take, by the directory's lengths.
pub open spec fn records_total(d: Seq<u64>, n: nat, k: int) -> int
    decreases k,
{
    if k <= 0 {
        0
    } else {
        records_total(d, n, k - 1) + entry_at(d, n, k - 1, 1) + entry_at(d, n, k - 1, 2)
    }
}

/// The records take the bytes their parts take.
pub proof fn lemma_records_len(rs: Seq<(Seq<u8>, Seq<u8>)>, d: Seq<u64>, n: nat)
    requires
        rs.len() <= 2 * n,
        forall|k: int|
            0 <= k < rs.len() ==> (#[trigger] rs[k]).0.len() == entry_at(d, n, k, 2) && rs[k].1.len()
                == entry_at(d, n, k, 1),
    ensures
        records_bytes(rs).len() == records_total(d, n, rs.len() as int),
    decreases rs.len(),
{
    if rs.len() > 0 {
        let pre = rs.drop_last();
        assert forall|k: int| 0 <= k < pre.len() implies (#[trigger] pre[k]).0.len() == entry_at(d, n, k, 2)
            && pre[k].1.len() == entry_at(d, n, k, 1) by {
            assert(pre[k] == rs[k]);
        }
        lemma_records_len(pre, d, n);
        assert(rs[rs.len() - 1] == rs.last());
    }
}

/// Records with the same part lengths and the same bytes are the same.
pub proof fn lemma_records_unique(a: Seq<(Seq<u8>, Seq<u8>)>, b: Seq<(Seq<u8>, Seq<u8>)>)
    requires
        a.len() == b.len(),
        forall|k: int| 0 <= k < a.len() ==> (#[trigger] a[k]).0.len() == b[k].0.len() && a[k].1.len() == b[k].1.len(),
        records_bytes(a) == records_bytes(b),
    ensures
        a == b,
    decreases a.len(),
{
    if a.len() > 0 {
        let pa = a.drop_last();
        let pb = b.drop_last();
        assert(a[a.len() - 1] == a.last());
        assert(b[b.len() - 1] == b.last());
        lemma_records_lens(pa, pb);
        let x = records_bytes(a);
        let la = records_bytes(pa).len();
        let l0 = a.last().0.len();
        assert(records_bytes(pa) =~= x.subrange(0, la as int));
        assert(records_bytes(pb) =~= x.subrange(0, la as int));
        assert(a.last().0 =~= x.subrange(la as int, (la + l0) as int));
        assert(b.last().0 =~= x.subrange(la as int, (la + l0) as int));
        assert(a.last().1 =~= x.subrange((la + l0) as int, x.len() as int));
        assert(b.last().1 =~= x.subrange((la + l0) as int, x.len() as int));
        assert forall|k: int| 0 <= k < pa.len() implies (#[trigger] pa[k]).0.len() == pb[k].0.len()
            && pa[k].1.len() == pb[k].1.len() by {
            assert(pa[k] == a[k] && pb[k] == b[k]);
        }
        lemma_records_unique(pa, pb);
        assert(a =~= pa.push(a.last()));
        assert(b =~= pb.push(b.last()));
    } else {
        assert(a =~= b);
    }
}

/// Records with the same part lengths take the same bytes.
proof fn lemma_records_lens(a: Seq<(Seq<u8>, Seq<u8>)>, b: Seq<(Seq<u8>, Seq<u8>)>)
    requires
        a.len() == b.len(),
        forall|k: int| 0 <= k < a.len() ==> (#[trigger] a[k]).0.len() == b[k].0.len() && a[k].1.len() == b[k].1.len(),
    ensures
        records_bytes(a).len() == records_bytes(b).len(),
    decreases a.len(),
{
    if a.len() > 0 {
        assert forall|k: int| 0 <= k < a.len() - 1 implies (#[trigger] a.drop_last()[k]).0.len()
            == b.drop_last()[k].0.len() && a.drop_last()[k].1.len() == b.drop_last()[k].1.len() by {
            assert(a.drop_last()[k] == a[k] && b.drop_last()[k] == b[k]);
        }
        lemma_records_lens(a.drop_last(), b.drop_last());
        assert(a[a.len() - 1] == a.last());
    }
}

/// Take the `2n` records the directory describes, starting at `pos`.
fn read_records(bytes: &[u8], pos: usize, d: &Vec<u64>, n: usize) -> (r: Result<
    (Vec<(Vec<u8>, Vec<u8>)>, usize),
    FileError,
>)
    requires
        pos <= bytes@.len(),
        d@.len() == 8 * n,
    ensures
        r matches Ok((rs, end)) ==> rs@.len() == 2 * n && end == pos + records_total(
            d@,
            n as nat,
            2 * n,
        ) && end <= bytes@.len() && bytes@.subrange(pos as int, end as int) == records_bytes(
            records_view(rs@),
        ) && forall|k: int|
            0 <= k < 2 * n ==> (#[trigger] records_view(rs@)[k]).0.len() == entry_at(d@, n as nat, k, 2)
                && records_view(rs@)[k].1.len() == entry_at(d@, n as nat, k, 1),
        pos + records_total(d@, n as nat, 2 * n) <= bytes@.len() <==> r is Ok,
        r matches Err(e) ==> e is Container,
{
    let dlen = d.len();
    let blen = bytes.len();
    let mut out: Vec<(Vec<u8>, Vec<u8>)> = Vec::new();
    let mut p = pos;
    let mut k: usize = 0;
    while k < 2 * n
        invariant
            dlen == d@.len(),
            d@.len() == 8 * n,
            blen == bytes@.len(),
            pos <= p <= blen,
            k <= 2 * n,
            out@.len() == k,
            p == pos + records_total(d@, n as nat, k as int),
            bytes@.subrange(pos as int, p as int) == records_bytes(records_view(out@)),
            forall|j: int|
                0 <= j < k ==> (#[trigger] records_view(out@)[j]).0.len() == entry_at(d@, n as nat, j, 2)
                    && records_view(out@)[j].1.len() == entry_at(d@, n as nat, j, 1),
        decreases 2 * n - k,
    {
        let plen = d[2 * n + 3 * k + 1];
        let p2len = d[2 * n + 3 * k + 2];
        let ghost before = out@;
        let mut q = p;
        let prefix = match family_bytes(bytes, &mut q, p2len, "prefix-2 blob overruns family") {
            Ok(x) => x,
            Err(e) => {
                proof {
                    lemma_records_total_mono(d@, n as nat, k + 1, 2 * n);
                }
                return Err(e);
            },
        };
        let payload = match family_bytes(bytes, &mut q, plen, "tile payload overruns family") {
            Ok(x) => x,
            Err(e) => {
                proof {
                    lemma_records_total_mono(d@, n as nat, k + 1, 2 * n);
                }
                return Err(e);
            },
        };
        out.push((vstd::slice::slice_to_vec(prefix), vstd::slice::slice_to_vec(payload)));
        proof {
            assert(records_view(out@).drop_last() =~= records_view(before));
            assert(records_view(out@).last() == (prefix@, payload@));
            assert(bytes@.subrange(pos as int, q as int) =~= bytes@.subrange(pos as int, p as int)
                + prefix@ + payload@);
            assert forall|j: int|
                0 <= j < k + 1 implies (#[trigger] records_view(out@)[j]).0.len() == entry_at(d@, n as nat, j, 2)
                    && records_view(out@)[j].1.len() == entry_at(d@, n as nat, j, 1) by {
                if j < k {
                    assert(records_view(out@)[j] == records_view(before)[j]);
                }
            }
        }
        p = q;
        k = k + 1;
    }
    Ok((out, p))
}

/// Record totals grow with the number of records.
pub(crate) proof fn lemma_records_total_mono(d: Seq<u64>, n: nat, j: int, k: int)
    requires
        0 <= j <= k,
    ensures
        records_total(d, n, j) <= records_total(d, n, k),
    decreases k - j,
{
    if j < k {
        lemma_records_total_mono(d, n, j, k - 1);
    }
}

/// Whether two prefix-2 directories are the same.
fn prefix2_same(a: &Vec<Prefix2Group>, b: &Vec<Prefix2Group>) -> (r: bool)
    ensures
        r == (a@.map_values(|g: Prefix2Group| (g.a, g.a_body_offset, g.b_entries@)) == b@.map_values(
            |g: Prefix2Group| (g.a, g.a_body_offset, g.b_entries@),
        )),
{
    let ghost view = |g: Prefix2Group| (g.a, g.a_body_offset, g.b_entries@);
    if a.len() != b.len() {
        proof {
            assert(a@.map_values(view).len() != b@.map_values(view).len());
        }
        return false;
    }
    let n = a.len();
    let mut i: usize = 0;
    while i < n
        invariant
            n == a@.len(),
            n == b@.len(),
            i <= n,
            view == (|g: Prefix2Group| (g.a, g.a_body_offset, g.b_entries@)),
            forall|j: int| 0 <= j < i ==> #[trigger] view(a@[j]) == view(b@[j]),
        decreases n - i,
    {
        let ga = &a[i];
        let gb = &b[i];
        if ga.a != gb.a || ga.a_body_offset != gb.a_body_offset || ga.b_entries.len() != gb.b_entries.len() {
            proof {
                assert(a@.map_values(view)[i as int] != b@.map_values(view)[i as int]);
            }
            return false;
        }
        let m = ga.b_entries.len();
        let mut j: usize = 0;
        while j < m
            invariant
                m == ga.b_entries@.len(),
                m == gb.b_entries@.len(),
                n == a@.len(),
                n == b@.len(),
                i < n,
                *ga == a@[i as int],
                *gb == b@[i as int],
                view == (|g: Prefix2Group| (g.a, g.a_body_offset, g.b_entries@)),
                j <= m,
                forall|x: int| 0 <= x < j ==> ga.b_entries@[x] == gb.b_entries@[x],
            decreases m - j,
        {
            let (x0, x1, x2) = ga.b_entries[j];
            let (y0, y1, y2) = gb.b_entries[j];
            if x0 != y0 || x1 != y1 || x2 != y2 {
                proof {
                    assert(ga.b_entries@[j as int] != gb.b_entries@[j as int]);
                    assert(view(a@[i as int]).2 != view(b@[i as int]).2);
                    assert(a@.map_values(view)[i as int] != b@.map_values(view)[i as int]);
                }
                return false;
            }
            j = j + 1;
        }
        proof {
            assert(ga.b_entries@ =~= gb.b_entries@);
        }
        i = i + 1;
    }
    proof {
        assert(a@.map_values(view) =~= b@.map_values(view));
    }
    true
}

/// The directory a record carries: its tile's, or none when the blob is
/// empty.
pub open spec fn record_prefix2(blob: Seq<u8>, ts: Seq<Triple>) -> Seq<GroupView> {
    if blob.len() == 0 {
        seq![]
    } else {
        tile_prefix2(ts)
    }
}

/// Decode and check one record against its leading range and synopsis.
pub(crate) fn check_record(codec: u8, prefix2: &Vec<u8>, payload: &Vec<u8>, lo: u32, hi: u32, syn: (
    u32,
    u32,
    u32,
    u32,
)) -> (r: Result<(Prefix2Meta, Tile), FileError>)
    ensures
        (match family_tile(codec, payload@) {
            Some(tb) => match tile_content(tb) {
                Some(ts) => ts[0].0 == lo && ts.last().0 == hi && synopsis_of(ts) == syn && (
                prefix2@.len() == 0 || spec_prefix2(prefix2@) == Some(tile_prefix2(ts))),
                None => false,
            },
            None => false,
        }) <==> r is Ok,
        r matches Ok((m, t)) ==> (family_tile(codec, payload@) matches Some(tb) && t.bytes@ == tb
            && (tile_content(tb) matches Some(ts) && t.min_a == lo && t.max_a == hi && t.syn == Some(
            syn,
        ) && meta_view(m) == record_prefix2(prefix2@, ts))),
{
    let tb = decompress_family_tile_exact(codec, payload.as_slice())?;
    let ts = match crate::index::tile_triples(tb.as_slice()) {
        Some(v) => v,
        None => return Err(FileError::Container("malformed family tile payload")),
    };
    proof {
        let c = tile_content(tb@)->0;
        assert(crate::tile::tile_wf(c));
    }
    if ts[0].0 != lo || ts[ts.len() - 1].0 != hi {
        return Err(FileError::Container("family directory range disagrees with tile"));
    }
    let z = crate::index::compute_synopsis(&ts);
    if z.0 != syn.0 || z.1 != syn.1 || z.2 != syn.2 || z.3 != syn.3 {
        return Err(FileError::Container("family synopsis disagrees with tile"));
    }
    let meta = if prefix2.len() == 0 {
        Prefix2Meta { groups: Vec::new() }
    } else {
        let m = match decode_prefix2(prefix2.as_slice()) {
            Ok(m) => m,
            Err(_) => return Err(FileError::Container("malformed prefix-2 blob")),
        };
        proof {
            assert(tile_content(tb@) == Some(ts@));
            assert(tile_bytes(ts@) == tb@);
        }
        let expected = compute_prefix2(&ts);
        if !prefix2_same(&m.groups, &expected) {
            return Err(FileError::Container("prefix-2 metadata does not match tile"));
        }
        m
    };
    proof {
        assert(meta_view(meta) =~= record_prefix2(prefix2@, ts@));
    }
    Ok((meta, Tile { min_a: lo, max_a: hi, bytes: tb, syn: Some(syn) }))
}

/// The synopses of the trailer, each as inclusive ranges of the middle and
/// last columns.
pub(crate) fn read_synopses(t: &Vec<u64>, n: usize) -> (r: Result<Vec<(u32, u32, u32, u32)>, FileError>)
    requires
        t@.len() == 8 * n,
    ensures
        trailer_ok(t@, n as nat) <==> r is Ok,
        r matches Ok(v) ==> v@.len() == 2 * n && forall|k: int| 0 <= k < 2 * n ==> #[trigger] v@[k] == syn_at(t@, k),
        r matches Err(e) ==> e is Container,
{
    let tlen = t.len();
    let mut out: Vec<(u32, u32, u32, u32)> = Vec::new();
    let mut k: usize = 0;
    while k < 2 * n
        invariant
            tlen == t@.len(),
            t@.len() == 8 * n,
            k <= 2 * n,
            out@.len() == k,
            forall|j: int| 0 <= j < k ==> #[trigger] out@[j] == syn_at(t@, j),
            forall|j: int|
                0 <= j < k ==> #[trigger] t@[4 * j] + t@[4 * j + 1] <= u32::MAX && t@[4 * j + 2] + t@[4
                    * j + 3] <= u32::MAX && t@[4 * j] <= u32::MAX && t@[4 * j + 2] <= u32::MAX,
        decreases 2 * n - k,
    {
        let lb = t[4 * k];
        let sb = t[4 * k + 1];
        let lc = t[4 * k + 2];
        let sc = t[4 * k + 3];
        if lb > 0xffff_ffff || sb > 0xffff_ffff || lb + sb > 0xffff_ffff {
            return Err(FileError::Container("family synopsis b overflows u32"));
        }
        if lc > 0xffff_ffff || sc > 0xffff_ffff || lc + sc > 0xffff_ffff {
            return Err(FileError::Container("family synopsis c overflows u32"));
        }
        out.push((lb as u32, (lb + sb) as u32, lc as u32, (lc + sc) as u32));
        k = k + 1;
    }
    Ok(out)
}

/// A decoded family's directory, as stored.
#[derive(Clone, Debug)]
pub struct FamilyDirectory {
    pub ranges: Vec<(u32, u32)>,
    pub first_flags: Vec<u8>,
    pub second_flags: Vec<u8>,
    pub first_lengths: Vec<u64>,
    pub second_lengths: Vec<u64>,
    pub first_prefix2_lengths: Vec<u64>,
    pub second_prefix2_lengths: Vec<u64>,
    pub first_prefix2: Vec<Prefix2Meta>,
    pub second_prefix2: Vec<Prefix2Meta>,
    pub first_synopses: Vec<(u32, u32, u32, u32)>,
    pub second_synopses: Vec<(u32, u32, u32, u32)>,
    pub first_records_offset: u64,
    pub second_records_offset: u64,
}

/// A decoded family: the tiles of both siblings and the directory.
#[derive(Clone, Debug)]
pub struct DecodedFamily {
    pub first: Vec<Tile>,
    pub second: Vec<Tile>,
    pub directory: FamilyDirectory,
}

/// Where the records of a family payload start.
pub open spec fn records_start(f: FamilyFields) -> int {
    let d = canonicals_bytes(f.1);
    let t = canonicals_bytes(f.3);
    (uvarint_bytes(f.0).len() + uvarint_bytes(d.len()).len() + uvarint_bytes(t.len()).len() + d.len()) as int
}

/// Tile `tile` and directory `meta` are what record `k` of `f` decodes to.
pub open spec fn record_decoded(tile: Tile, meta: Prefix2Meta, f: FamilyFields, codec: u8, k: int) -> bool {
    let (n, d, rs, t) = f;
    &&& family_tile(codec, rs[k].1) matches Some(tb)
    &&& tile.bytes@ == tb
    &&& tile.min_a == fam_min(d, sib(n, k))
    &&& tile.max_a == fam_max(d, sib(n, k))
    &&& tile.syn == Some(syn_at(t, k))
    &&& meta_view(meta) == record_prefix2(rs[k].0, tile_content(tb)->0)
}

/// `out` is what the family payload `f` decodes to.
pub open spec fn decoded_as(out: DecodedFamily, f: FamilyFields, codec: u8) -> bool {
    let (n, d, rs, t) = f;
    let dir = out.directory;
    &&& out.first@.len() == n && out.second@.len() == n
    &&& dir.ranges@.len() == n && dir.first_flags@.len() == n && dir.second_flags@.len() == n
    &&& dir.first_lengths@.len() == n && dir.second_lengths@.len() == n
    &&& dir.first_prefix2_lengths@.len() == n && dir.second_prefix2_lengths@.len() == n
    &&& dir.first_prefix2@.len() == n && dir.second_prefix2@.len() == n
    &&& dir.first_synopses@.len() == n && dir.second_synopses@.len() == n
    &&& forall|i: int|
        0 <= i < n ==> {
            &&& #[trigger] dir.ranges@[i] == (fam_min(d, i) as u32, fam_max(d, i) as u32)
            &&& dir.first_flags@[i] == entry_at(d, n, i, 0) as u8
            &&& dir.second_flags@[i] == entry_at(d, n, n + i, 0) as u8
            &&& dir.first_lengths@[i] == entry_at(d, n, i, 1)
            &&& dir.second_lengths@[i] == entry_at(d, n, n + i, 1)
            &&& dir.first_prefix2_lengths@[i] == entry_at(d, n, i, 2)
            &&& dir.second_prefix2_lengths@[i] == entry_at(d, n, n + i, 2)
            &&& dir.first_synopses@[i] == syn_at(t, i)
            &&& dir.second_synopses@[i] == syn_at(t, n + i)
            &&& record_decoded(out.first@[i], dir.first_prefix2@[i], f, codec, i)
            &&& record_decoded(out.second@[i], dir.second_prefix2@[i], f, codec, n + i)
        }
    &&& dir.first_records_offset == records_start(f)
    &&& dir.second_records_offset == records_start(f) + records_total(d, n, n as int)
}

/// A family payload that a decoder accepts.
pub open spec fn family_valid(bytes: Seq<u8>, codec: u8) -> bool {
    exists|f: FamilyFields| family_wf(f) && family_wire(f) == bytes && records_ok(f, codec)
}

/// Field `j` of records `base..base + n`.
fn entry_column(d: &Vec<u64>, n: usize, base: usize, j: usize) -> (r: Vec<u64>)
    requires
        d@.len() == 8 * n,
        base == 0 || base == n,
        j < 3,
    ensures
        r@.len() == n,
        forall|i: int| 0 <= i < n ==> #[trigger] r@[i] == entry_at(d@, n as nat, base + i, j as int),
{
    let dlen = d.len();
    let mut out: Vec<u64> = Vec::new();
    let mut i: usize = 0;
    while i < n
        invariant
            dlen == d@.len(),
            d@.len() == 8 * n,
            base == 0 || base == n,
            j < 3,
            i <= n,
            out@.len() == i,
            forall|x: int| 0 <= x < i ==> #[trigger] out@[x] == entry_at(d@, n as nat, base + x, j as int),
        decreases n - i,
    {
        out.push(d[2 * n + 3 * (base + i) + j]);
        i = i + 1;
    }
    out
}

/// The flags of records `base..base + n`, which the directory keeps below
/// four.
fn flag_column(d: &Vec<u64>, n: usize, base: usize) -> (r: Vec<u8>)
    requires
        d@.len() == 8 * n,
        base == 0 || base == n,
    ensures
        r@.len() == n,
        forall|i: int| 0 <= i < n ==> #[trigger] r@[i] == entry_at(d@, n as nat, base + i, 0) as u8,
{
    let dlen = d.len();
    let mut out: Vec<u8> = Vec::new();
    let mut i: usize = 0;
    while i < n
        invariant
            dlen == d@.len(),
            d@.len() == 8 * n,
            base == 0 || base == n,
            i <= n,
            out@.len() == i,
            forall|x: int| 0 <= x < i ==> #[trigger] out@[x] == entry_at(d@, n as nat, base + x, 0) as u8,
        decreases n - i,
    {
        out.push(d[2 * n + 3 * (base + i)] as u8);
        i = i + 1;
    }
    out
}

/// The layout of a family payload's bytes.
pub(crate) proof fn lemma_wire_layout(f: FamilyFields)
    ensures
        ({
            let w = family_wire(f);
            let d = canonicals_bytes(f.1);
            let t = canonicals_bytes(f.3);
            let rb = records_bytes(f.2);
            let h0 = uvarint_bytes(f.0).len() as int;
            let h1 = h0 + uvarint_bytes(d.len()).len();
            let h2 = h1 + uvarint_bytes(t.len()).len();
            &&& w.len() == h2 + d.len() + rb.len() + t.len()
            &&& w.skip(0) == uvarint_bytes(f.0) + w.skip(h0)
            &&& w.skip(h0) == uvarint_bytes(d.len()) + w.skip(h1)
            &&& w.skip(h1) == uvarint_bytes(t.len()) + w.skip(h2)
            &&& w.subrange(h2, h2 + d.len()) == d
            &&& w.subrange(h2 + d.len(), h2 + d.len() + rb.len()) == rb
            &&& w.subrange(h2 + d.len() + rb.len(), w.len() as int) == t
            &&& records_start(f) == h2 + d.len()
        }),
{
    let w = family_wire(f);
    let d = canonicals_bytes(f.1);
    let t = canonicals_bytes(f.3);
    let rb = records_bytes(f.2);
    let e0 = uvarint_bytes(f.0);
    let e1 = uvarint_bytes(d.len());
    let e2 = uvarint_bytes(t.len());
    let h0 = e0.len() as int;
    let h1 = h0 + e1.len();
    let h2 = h1 + e2.len();
    assert(w =~= e0 + (e1 + (e2 + (d + (rb + t)))));
    assert(w.skip(0) =~= w);
    assert(w.skip(h0) =~= e1 + (e2 + (d + (rb + t))));
    assert(w.skip(h1) =~= e2 + (d + (rb + t)));
    assert(w.skip(h2) =~= d + (rb + t));
    assert(w.subrange(h2, h2 + d.len()) =~= d);
    assert(w.subrange(h2 + d.len(), h2 + d.len() + rb.len()) =~= rb);
    assert(w.subrange(h2 + d.len() + rb.len(), w.len() as int) =~= t);
}

/// The framing of a family payload as plain values.
pub open spec fn frame_fields(n: usize, d: Vec<u64>, rs: Vec<(Vec<u8>, Vec<u8>)>, t: Vec<u64>) -> FamilyFields {
    (n as nat, d@, records_view(rs@), t@)
}

/// Consistent framings with the same bytes are the same framing.
pub proof fn lemma_wire_unique(f: FamilyFields, g: FamilyFields)
    requires
        family_wf(f),
        family_wf(g),
        family_wire(f) == family_wire(g),
    ensures
        f == g,
{
    lemma_wire_layout(f);
    lemma_wire_layout(g);
    let w = family_wire(f);
    let df = canonicals_bytes(f.1);
    let dg = canonicals_bytes(g.1);
    let tf = canonicals_bytes(f.3);
    let tg = canonicals_bytes(g.3);
    crate::varint::lemma_uvarint_prefix_unique(f.0, g.0, w.skip(uvarint_bytes(f.0).len() as int), w.skip(uvarint_bytes(g.0).len() as int));
    let h0 = uvarint_bytes(f.0).len() as int;
    crate::varint::lemma_uvarint_prefix_unique(df.len(), dg.len(), w.skip(h0 + uvarint_bytes(df.len()).len()), w.skip(h0 + uvarint_bytes(dg.len()).len()));
    let h1 = h0 + uvarint_bytes(df.len()).len();
    crate::varint::lemma_uvarint_prefix_unique(tf.len(), tg.len(), w.skip(h1 + uvarint_bytes(tf.len()).len()), w.skip(h1 + uvarint_bytes(tg.len()).len()));
    crate::varint::lemma_canonicals_unique(f.1, g.1);
    crate::varint::lemma_canonicals_unique(f.3, g.3);
    let n = f.0;
    assert forall|k: int| 0 <= k < f.2.len() implies (#[trigger] f.2[k]).0.len() == g.2[k].0.len()
        && f.2[k].1.len() == g.2[k].1.len() by {
    }
    lemma_records_len(f.2, f.1, n);
    lemma_records_len(g.2, g.1, n);
    lemma_records_unique(f.2, g.2);
}

/// A payload split at the framing's boundaries is the framing's bytes.
pub(crate) proof fn lemma_frame_bytes(bytes: Seq<u8>, p1: int, p2: int, p3: int, q: int, after: int, f: FamilyFields)
    requires
        0 <= p1 <= p2 <= p3 <= q <= after <= bytes.len(),
        bytes.subrange(0, p1) == uvarint_bytes(f.0),
        bytes.subrange(p1, p2) == uvarint_bytes(canonicals_bytes(f.1).len()),
        bytes.subrange(p2, p3) == uvarint_bytes(canonicals_bytes(f.3).len()),
        bytes.subrange(p3, q) == canonicals_bytes(f.1),
        bytes.subrange(q, after) == records_bytes(f.2),
        bytes.subrange(after, bytes.len() as int) == canonicals_bytes(f.3),
    ensures
        family_wire(f) == bytes,
{
    assert(bytes =~= bytes.subrange(0, p1) + bytes.subrange(p1, p2) + bytes.subrange(p2, p3) + bytes.subrange(p3, q)
        + bytes.subrange(q, after) + bytes.subrange(after, bytes.len() as int));
}

/// The three counts at the front of a family payload: the tile count and
/// the directory and trailer lengths, each a shortest-form varint.
pub open spec fn family_counts(bytes: Seq<u8>) -> Option<(u64, u64, u64)> {
    match spec_read_canonical(bytes) {
        None => None,
        Some((c, k1)) => match spec_read_canonical(bytes.skip(k1 as int)) {
            None => None,
            Some((dl, k2)) => match spec_read_canonical(bytes.skip((k1 + k2) as int)) {
                None => None,
                Some((tl, k3)) => Some((c, dl, tl)),
            },
        },
    }
}

/// The error a family payload's counts give before its directory is read:
/// a directory or trailer too short for eight varints per tile, or longer
/// than eight varints of at most ten bytes per tile can span.
pub open spec fn family_count_error(c: u64, dl: u64, tl: u64) -> Option<FileError> {
    if c > u64::MAX / 8 {
        Some(FileError::Container("family directory size overflows"))
    } else if dl < 8 * c {
        Some(FileError::Container("family tile count exceeds directory"))
    } else if tl < 8 * c {
        Some(FileError::Container("family tile count exceeds trailer"))
    } else if c <= u64::MAX / 80 && dl > 80 * c {
        Some(FileError::Container("family directory exceeds varint framing"))
    } else if c <= u64::MAX / 80 && tl > 80 * c {
        Some(FileError::Container("family trailer exceeds varint framing"))
    } else {
        None
    }
}

/// Read a family payload's framing: the counts, the directory, the records
/// and the trailer, exactly when the bytes are a consistent framing.
#[verifier::rlimit(100)]
#[verifier::spinoff_prover]
fn parse_family_frame(bytes: &[u8]) -> (r: Result<
    (usize, Vec<u64>, Vec<(Vec<u8>, Vec<u8>)>, Vec<u64>, usize),
    FileError,
>)
    ensures
        r matches Ok((n, d, rs, t, start)) ==> family_wf(frame_fields(n, d, rs, t)) && family_wire(
            frame_fields(n, d, rs, t),
        ) == bytes@ && records_start(frame_fields(n, d, rs, t)) == start,
        (exists|f: FamilyFields| family_wf(f) && family_wire(f) == bytes@) ==> r is Ok,
        r matches Err(e) ==> e is Container,
        family_counts(bytes@) matches Some((c, dl, tl)) ==> (family_count_error(c, dl, tl) matches Some(e) ==> r
            == Err::<(usize, Vec<u64>, Vec<(Vec<u8>, Vec<u8>)>, Vec<u64>, usize), FileError>(e)),
{
    let blen = bytes.len();
    let ghost valid = exists|f: FamilyFields| family_wf(f) && family_wire(f) == bytes@;
    let ghost f0 = choose|f: FamilyFields| family_wf(f) && family_wire(f) == bytes@;
    let ghost d0 = canonicals_bytes(f0.1);
    let ghost t0 = canonicals_bytes(f0.3);
    proof {
        if valid {
            lemma_wire_layout(f0);
            crate::varint::lemma_canonicals_len(f0.1);
            crate::varint::lemma_canonicals_len(f0.3);
            crate::varint::lemma_read_canonical_write_nat(f0.0, bytes@.skip(uvarint_bytes(f0.0).len() as int));
            crate::varint::lemma_read_canonical_write_nat(d0.len(), bytes@.skip((uvarint_bytes(f0.0).len() + uvarint_bytes(d0.len()).len()) as int));
            crate::varint::lemma_read_canonical_write_nat(t0.len(), bytes@.skip((uvarint_bytes(f0.0).len() + uvarint_bytes(d0.len()).len() + uvarint_bytes(t0.len()).len()) as int));
            lemma_records_len(f0.2, f0.1, f0.0);
        }
    }
    proof {
        assert(bytes@.skip(0) =~= bytes@);
    }
    let mut pos: usize = 0;
    let count = family_varint(bytes, &mut pos, "truncated family tile count")?;
    let ghost p1 = pos;
    let dir_len = family_varint(bytes, &mut pos, "truncated family directory length")?;
    let ghost p2 = pos;
    let trailer_len = family_varint(bytes, &mut pos, "truncated family trailer length")?;
    let ghost p3 = pos;
    proof {
        if valid {
            assert(count == f0.0 && dir_len == d0.len() && trailer_len == t0.len());
        }
    }
    if count > u64::MAX / 8 {
        return Err(FileError::Container("family directory size overflows"));
    }
    if dir_len < 8 * count {
        return Err(FileError::Container("family tile count exceeds directory"));
    }
    if trailer_len < 8 * count {
        return Err(FileError::Container("family tile count exceeds trailer"));
    }
    if count <= u64::MAX / 80 {
        if dir_len > 80 * count {
            return Err(FileError::Container("family directory exceeds varint framing"));
        }
        if trailer_len > 80 * count {
            return Err(FileError::Container("family trailer exceeds varint framing"));
        }
    }
    let dir = family_bytes(bytes, &mut pos, dir_len, "truncated family directory")?;
    let n = count as usize;
    let (d, dend) = match read_canonical_run(dir, 0, 8 * n) {
        Some(x) => x,
        None => {
            proof {
                if valid {
                    assert(dir@.subrange(0, d0.len() as int) =~= d0);
                }
            }
            return Err(FileError::Container("malformed family directory"));
        },
    };
    proof {
        if valid {
            assert(dir@.subrange(0, d0.len() as int) =~= d0);
            assert(d@ == f0.1);
        }
    }
    if dend != dir.len() {
        return Err(FileError::Container("trailing family directory bytes"));
    }
    let ranges = validate_directory(&d, n)?;
    let (rs, after) = read_records(bytes, pos, &d, n)?;
    proof {
        if valid {
            let h = records_start(f0);
            assert(bytes@.subrange(h, h + records_bytes(f0.2).len()) == records_bytes(f0.2));
            assert forall|k: int| 0 <= k < records_view(rs@).len() implies (#[trigger] records_view(rs@)[k]).0.len()
                == f0.2[k].0.len() && records_view(rs@)[k].1.len() == f0.2[k].1.len() by {
            }
            lemma_records_unique(records_view(rs@), f0.2);
        }
    }
    let mut tpos = after;
    let trailer = family_bytes(bytes, &mut tpos, trailer_len, "truncated family synopsis trailer")?;
    if tpos != blen {
        return Err(FileError::Container("trailing family bytes"));
    }
    let (t, tend) = match read_canonical_run(trailer, 0, 8 * n) {
        Some(x) => x,
        None => {
            proof {
                if valid {
                    assert(trailer@.subrange(0, t0.len() as int) =~= t0);
                }
            }
            return Err(FileError::Container("malformed family synopsis trailer"));
        },
    };
    proof {
        if valid {
            assert(trailer@.subrange(0, t0.len() as int) =~= t0);
            assert(t@ == f0.3);
        }
    }
    if tend != trailer.len() {
        return Err(FileError::Container("trailing family synopsis bytes"));
    }
    let syns = read_synopses(&t, n)?;
    let ghost f = frame_fields(n, d, rs, t);
    proof {
        assert(dir@ =~= canonicals_bytes(d@)) by {
            assert(dir@.subrange(0, dend as int) =~= dir@);
        }
        assert(trailer@ =~= canonicals_bytes(t@)) by {
            assert(trailer@.subrange(0, tend as int) =~= trailer@);
        }
        lemma_records_total_mono(d@, n as nat, 0, 2 * n);
        assert(dir_len == dir@.len() && trailer_len == trailer@.len());
        assert(bytes@.subrange(p3 as int, pos as int) == dir@);
        assert(bytes@.subrange(after as int, blen as int) == trailer@);
        lemma_frame_bytes(bytes@, p1 as int, p2 as int, p3 as int, pos as int, after as int, f);
        lemma_wire_layout(f);
        assert forall|k: int| 0 <= k < 2 * n implies (#[trigger] f.2[k]).0.len() == entry_at(f.1, f.0, k, 2)
            && f.2[k].1.len() == entry_at(f.1, f.0, k, 1) by {
        }
    }
    Ok((n, d, rs, t, pos))
}

/// Synopses `base..base + n` of a list of `2n`.
fn synopsis_half(v: &Vec<(u32, u32, u32, u32)>, n: usize, base: usize) -> (r: Vec<(u32, u32, u32, u32)>)
    requires
        v@.len() == 2 * n,
        base == 0 || base == n,
    ensures
        r@ == v@.subrange(base as int, base + n),
{
    let vlen = v.len();
    let mut out: Vec<(u32, u32, u32, u32)> = Vec::new();
    let mut i: usize = 0;
    while i < n
        invariant
            v@.len() == 2 * n,
            vlen == v@.len(),
            base == 0 || base == n,
            i <= n,
            out@ == v@.subrange(base as int, base + i),
        decreases n - i,
    {
        out.push(v[base + i]);
        proof {
            assert(out@ =~= v@.subrange(base as int, base + i + 1));
        }
        i = i + 1;
    }
    out
}

/// Decode and fully check one paired family payload: the framing, every
/// record's tile against its range and synopsis, and every prefix-2 blob
/// against its tile.
#[verifier::rlimit(100)]
#[verifier::spinoff_prover]
pub fn decode_family_container(bytes: &[u8], codec: u8) -> (r: Result<DecodedFamily, FileError>)
    ensures
        codec != CODEC_NONE && codec != CODEC_ZSTD ==> r == Err::<DecodedFamily, FileError>(
            FileError::UnknownCodec(codec),
        ),
        r matches Ok(out) ==> exists|f: FamilyFields|
            family_wf(f) && family_wire(f) == bytes@ && records_ok(f, codec) && decoded_as(out, f, codec),
        (codec == CODEC_NONE || codec == CODEC_ZSTD) && family_valid(bytes@, codec) ==> r is Ok,
        (codec == CODEC_NONE || codec == CODEC_ZSTD) ==> (family_counts(bytes@) matches Some((c, dl, tl)) ==> (
        family_count_error(c, dl, tl) matches Some(e) ==> r == Err::<DecodedFamily, FileError>(e))),
{
    if codec != CODEC_NONE && codec != CODEC_ZSTD {
        return Err(FileError::UnknownCodec(codec));
    }
    let ghost valid = family_valid(bytes@, codec);
    let (n, d, rs, t, start) = parse_family_frame(bytes)?;
    let ghost f = frame_fields(n, d, rs, t);
    proof {
        if valid {
            let f0 = choose|f0: FamilyFields| family_wf(f0) && family_wire(f0) == bytes@ && records_ok(f0, codec);
            lemma_wire_unique(f0, f);
            assert(records_ok(f, codec));
        }
    }
    let ranges = validate_directory(&d, n)?;
    let syns = read_synopses(&t, n)?;
    let mut tiles: Vec<Tile> = Vec::new();
    let mut metas: Vec<Prefix2Meta> = Vec::new();
    let mut k: usize = 0;
    let total = rs.len();
    while k < total
        invariant
            total == 2 * n,
            f == frame_fields(n, d, rs, t),
            family_wf(f),
            codec == CODEC_NONE || codec == CODEC_ZSTD,
            valid == family_valid(bytes@, codec),
            valid ==> records_ok(f, codec),
            family_counts(bytes@) matches Some((c, dl, tl)) ==> family_count_error(c, dl, tl) is None,
            rs@.len() == 2 * n,
            ranges@.len() == n,
            syns@.len() == 2 * n,
            forall|i: int| 0 <= i < n ==> #[trigger] ranges@[i] == (fam_min(d@, i) as u32, fam_max(d@, i) as u32),
            forall|j: int| 0 <= j < 2 * n ==> #[trigger] syns@[j] == syn_at(t@, j),
            k <= 2 * n,
            tiles@.len() == k,
            metas@.len() == k,
            forall|j: int| 0 <= j < k ==> #[trigger] record_ok(f, codec, j),
            forall|j: int| 0 <= j < k ==> #[trigger] record_decoded(tiles@[j], metas@[j], f, codec, j),
        decreases 2 * n - k,
    {
        let i = if k < n {
            k
        } else {
            k - n
        };
        let (lo, hi) = ranges[i];
        let syn = syns[k];
        let rec = &rs[k];
        proof {
            assert(sib(n as nat, k as int) == i);
            assert(f.2[k as int] == (rec.0@, rec.1@));
            lemma_fam_min_nonneg(d@, i as int);
            assert(fam_max(d@, i as int) <= u32::MAX);
        }
        let (m, tile) = match check_record(codec, &rec.0, &rec.1, lo, hi, syn) {
            Ok(x) => x,
            Err(e) => {
                proof {
                    assert(!record_ok(f, codec, k as int));
                }
                return Err(e);
            },
        };
        tiles.push(tile);
        metas.push(m);
        proof {
            assert(record_ok(f, codec, k as int));
            assert(record_decoded(tiles@[k as int], metas@[k as int], f, codec, k as int));
            assert forall|j: int| 0 <= j < k + 1 implies #[trigger] record_decoded(tiles@[j], metas@[j], f, codec, j) by {
                if j < k {
                    assert(tiles@[j] == tiles@.drop_last()[j]);
                    assert(metas@[j] == metas@.drop_last()[j]);
                }
            }
        }
        k = k + 1;
    }
    let ghost all_tiles = tiles@;
    let ghost all_metas = metas@;
    let second = tiles.split_off(n);
    let second_prefix2 = metas.split_off(n);
    let blen = bytes.len();
    proof {
        lemma_wire_layout(f);
        lemma_records_len(f.2, f.1, f.0);
    }
    let mut second_offset: u64 = start as u64;
    let mut j: usize = 0;
    while j < n
        invariant
            f == frame_fields(n, d, rs, t),
            family_wf(f),
            blen == bytes@.len(),
            rs@.len() == 2 * n,
            j <= n,
            second_offset == start + records_total(d@, n as nat, j as int),
            start == records_start(f),
            records_start(f) + records_total(d@, n as nat, 2 * n) <= bytes@.len(),
        decreases n - j,
    {
        proof {
            lemma_records_total_mono(d@, n as nat, j + 1, 2 * n);
            assert(f.2[j as int] == (rs@[j as int].0@, rs@[j as int].1@));
            assert(records_total(d@, n as nat, j + 1) == records_total(d@, n as nat, j as int)
                + rs@[j as int].0@.len() + rs@[j as int].1@.len());
        }
        second_offset = second_offset + rs[j].0.len() as u64 + rs[j].1.len() as u64;
        j = j + 1;
    }
    let directory = FamilyDirectory {
        ranges,
        first_flags: flag_column(&d, n, 0),
        second_flags: flag_column(&d, n, n),
        first_lengths: entry_column(&d, n, 0, 1),
        second_lengths: entry_column(&d, n, n, 1),
        first_prefix2_lengths: entry_column(&d, n, 0, 2),
        second_prefix2_lengths: entry_column(&d, n, n, 2),
        first_prefix2: metas,
        second_prefix2,
        first_synopses: synopsis_half(&syns, n, 0),
        second_synopses: synopsis_half(&syns, n, n),
        first_records_offset: start as u64,
        second_records_offset: second_offset,
    };
    let out = DecodedFamily { first: tiles, second, directory };
    proof {
        assert forall|i: int| 0 <= i < n implies {
            &&& #[trigger] out.directory.ranges@[i] == (fam_min(d@, i) as u32, fam_max(d@, i) as u32)
            &&& out.directory.first_flags@[i] == entry_at(d@, n as nat, i, 0) as u8
            &&& out.directory.second_flags@[i] == entry_at(d@, n as nat, n + i, 0) as u8
            &&& out.directory.first_lengths@[i] == entry_at(d@, n as nat, i, 1)
            &&& out.directory.second_lengths@[i] == entry_at(d@, n as nat, n + i, 1)
            &&& out.directory.first_prefix2_lengths@[i] == entry_at(d@, n as nat, i, 2)
            &&& out.directory.second_prefix2_lengths@[i] == entry_at(d@, n as nat, n + i, 2)
            &&& out.directory.first_synopses@[i] == syn_at(t@, i)
            &&& out.directory.second_synopses@[i] == syn_at(t@, n + i)
            &&& record_decoded(out.first@[i], out.directory.first_prefix2@[i], f, codec, i)
            &&& record_decoded(out.second@[i], out.directory.second_prefix2@[i], f, codec, n + i)
        } by {
            assert(out.first@[i] == all_tiles[i]);
            assert(out.second@[i] == all_tiles[n + i]);
            assert(out.directory.first_prefix2@[i] == all_metas[i]);
            assert(out.directory.second_prefix2@[i] == all_metas[n + i]);
            assert(record_decoded(all_tiles[i], all_metas[i], f, codec, i));
            assert(record_decoded(all_tiles[n + i], all_metas[n + i], f, codec, n + i));
            assert(out.directory.first_synopses@[i] == syns@[i]);
            assert(out.directory.second_synopses@[i] == syns@[n + i]);
        }
        assert(records_ok(f, codec));
        assert(decoded_as(out, f, codec));
    }
    Ok(out)
}

/// A tile a family can carry: valid, with the leading range it declares,
/// within the fixed tile limit.
#[verifier::opaque]
pub open spec fn tile_ok(t: Tile) -> bool {
    &&& tile_content(t.bytes@) matches Some(ts)
    &&& ts[0].0 == t.min_a
    &&& ts.last().0 == t.max_a
    &&& t.bytes@.len() <= FAMILY_TILE_DECOMPRESSED_MAX
}

/// A tile whose bytes are over the fixed decompressed limit a decoder holds.
pub open spec fn tile_big(t: Tile) -> bool {
    t.bytes@.len() > FAMILY_TILE_DECOMPRESSED_MAX
}

/// Every tile is carried or too big, and some tile is too big.
pub open spec fn only_big_fail(tiles: Seq<Tile>) -> bool {
    &&& forall|j: int| 0 <= j < tiles.len() ==> tile_ok(#[trigger] tiles[j]) || tile_big(tiles[j])
    &&& exists|j: int| 0 <= j < tiles.len() && tile_big(#[trigger] tiles[j])
}

/// A family whose framing checks pass and whose only faulty tiles are too
/// big: the encoder refuses it for the fixed decompressed limit.
pub open spec fn fails_on_tile_size(first: Seq<Tile>, second: Seq<Tile>, codec: u8) -> bool {
    &&& first.len() == second.len()
    &&& codec == CODEC_NONE || first.len() == 0
    &&& first.len() <= usize::MAX / 16
    &&& forall|i: int| 0 <= i < first.len() ==> (#[trigger] first[i]).min_a == second[i].min_a && first[i].max_a
        == second[i].max_a
    &&& ranges_chain_ok(first)
    &&& (only_big_fail(first) && (forall|j: int| 0 <= j < second.len() ==> tile_ok(#[trigger] second[j])
        || tile_big(second[j])) || (forall|j: int| 0 <= j < first.len() ==> tile_ok(#[trigger] first[j]))
        && only_big_fail(second))
}

/// Tile ranges in order: a repeated range is a single leading value, and
/// any other range starts past the previous one.
pub open spec fn ranges_chain_ok(tiles: Seq<Tile>) -> bool {
    forall|i: int| 0 < i < tiles.len() ==> #[trigger] chain_ok_at(tiles, i)
}

/// Tile `i` either repeats the previous range as a single leading value or
/// starts past it.
pub open spec fn chain_ok_at(tiles: Seq<Tile>, i: int) -> bool {
    if tiles[i].min_a == tiles[i - 1].min_a && tiles[i].max_a == tiles[i - 1].max_a {
        tiles[i].min_a == tiles[i].max_a
    } else {
        tiles[i].min_a > tiles[i - 1].max_a
    }
}

/// The sibling tiles a family encoder accepts: uncompressed, in equal
/// numbers, with equal ranges, in order, each valid.
pub open spec fn family_encodable(first: Seq<Tile>, second: Seq<Tile>, codec: u8) -> bool {
    &&& codec == CODEC_NONE || first.len() == 0
    &&& first.len() == second.len()
    &&& first.len() <= usize::MAX / 16
    &&& forall|i: int|
        0 <= i < first.len() ==> (#[trigger] first[i]).min_a == second[i].min_a && first[i].max_a
            == second[i].max_a && tile_ok(first[i]) && tile_ok(second[i])
    &&& ranges_chain_ok(first)
}

/// The prefix-2 blob written for a tile: its directory's, unless that
/// exceeds the format budget.
pub open spec fn tile_prefix_blob(t: Tile) -> Seq<u8> {
    prefix2_blob(tile_prefix2(tile_content(t.bytes@)->0))
}

/// The framing `f` carries the tiles `first` then `second`, each record
/// holding its tile's prefix-2 blob.
pub open spec fn frames_tiles(f: FamilyFields, first: Seq<Tile>, second: Seq<Tile>) -> bool {
    let (n, d, rs, t) = f;
    &&& n == first.len()
    &&& n == second.len()
    &&& forall|i: int|
        0 <= i < n ==> #[trigger] fam_min(d, i) == first[i].min_a && fam_max(d, i) == first[i].max_a
            && second[i].min_a == first[i].min_a && second[i].max_a == first[i].max_a
            && rs[i] == (tile_prefix_blob(first[i]), first[i].bytes@) && rs[n + i] == (
            tile_prefix_blob(second[i]),
            second[i].bytes@,
        )
}

/// Running minima rebuild from their deltas.
proof fn lemma_fam_min_from(d: Seq<u64>, mins: Seq<u32>, i: int)
    requires
        0 <= i < mins.len(),
        d.len() >= 2 * mins.len(),
        forall|j: int| 0 <= j < mins.len() ==> #[trigger] d[2 * j] == mins[j] - (if j == 0 { 0 } else { mins[j - 1] as int }),
    ensures
        fam_min(d, i) == mins[i],
    decreases i,
{
    assert(d[2 * i] == mins[i] - (if i == 0 { 0 } else { mins[i - 1] as int }));
    if i > 0 {
        lemma_fam_min_from(d, mins, i - 1);
    }
    assert(fam_min(d, i) == fam_min(d, i - 1) + d[2 * i]);
}

/// The synopsis fields of a tile as stored: smallest middle value, its span,
/// smallest last value, its span.
pub open spec fn syn_fields_ok(t: Tile, v: Seq<u64>) -> bool {
    &&& v.len() == 4
    &&& synopsis_of(tile_content(t.bytes@)->0) == (
        v[0] as u32,
        (v[0] + v[1]) as u32,
        v[2] as u32,
        (v[2] + v[3]) as u32,
    )
    &&& v[0] + v[1] <= u32::MAX
    &&& v[2] + v[3] <= u32::MAX
    &&& v[0] <= u32::MAX
    &&& v[2] <= u32::MAX
}

/// Check that a tile can be carried and append its synopsis fields.
fn push_tile_synopsis(t: &Tile, out: &mut Vec<u64>) -> (r: Result<(), FileError>)
    ensures
        tile_ok(*t) <==> r is Ok,
        tile_big(*t) ==> r == Err::<(), FileError>(FileError::Container("family tile exceeds fixed decompressed limit")),
        r is Ok ==> final(out)@.len() == old(out)@.len() + 4 && final(out)@.subrange(0, old(out)@.len() as int) == old(out)@
            && syn_fields_ok(*t, final(out)@.subrange(old(out)@.len() as int, final(out)@.len() as int)),
        r is Err ==> final(out)@ == old(out)@,
{
    proof {
        reveal(tile_ok);
    }
    if t.bytes.len() > FAMILY_TILE_DECOMPRESSED_MAX {
        return Err(FileError::Container("family tile exceeds fixed decompressed limit"));
    }
    let ts = match crate::index::tile_triples(t.bytes.as_slice()) {
        Some(v) => v,
        None => return Err(FileError::Container("malformed family tile")),
    };
    proof {
        assert(crate::tile::tile_wf(ts@));
    }
    if ts[0].0 != t.min_a || ts[ts.len() - 1].0 != t.max_a {
        return Err(FileError::Container("malformed family tile"));
    }
    let z = crate::index::compute_synopsis(&ts);
    proof {
        crate::index::lemma_synopsis_order(ts@);
    }
    let ghost before = out@;
    out.push(z.0 as u64);
    out.push((z.1 - z.0) as u64);
    out.push(z.2 as u64);
    out.push((z.3 - z.2) as u64);
    proof {
        assert(out@.subrange(0, before.len() as int) =~= before);
        let v = out@.subrange(before.len() as int, out@.len() as int);
        assert(v[0] == z.0 && v[1] == z.1 - z.0 && v[2] == z.2 && v[3] == z.3 - z.2);
    }
    Ok(())
}

/// The stored synopsis fields of the tiles `tiles` are `v`, four each.
pub open spec fn syns_fields_ok(tiles: Seq<Tile>, v: Seq<u64>) -> bool {
    &&& v.len() == 4 * tiles.len()
    &&& forall|j: int| 0 <= j < tiles.len() ==> #[trigger] syn_fields_ok(tiles[j], v.subrange(4 * j, 4 * j + 4))
}

/// Append the prefix-2 blob of each tile of a run.
fn tile_blobs(tiles: &Vec<Tile>, out: &mut Vec<Vec<u8>>)
    requires
        forall|j: int| 0 <= j < tiles@.len() ==> #[trigger] tile_ok(tiles@[j]),
    ensures
        final(out)@.len() == old(out)@.len() + tiles@.len(),
        forall|j: int| 0 <= j < old(out)@.len() ==> #[trigger] final(out)@[j] == old(out)@[j],
        forall|j: int| 0 <= j < tiles@.len() ==> (#[trigger] final(out)@[old(out)@.len() + j])@ == tile_prefix_blob(
            tiles@[j],
        ),
{
    let ghost start = out@;
    let n = tiles.len();
    let mut i: usize = 0;
    while i < n
        invariant
            n == tiles@.len(),
            i <= n,
            forall|j: int| 0 <= j < tiles@.len() ==> #[trigger] tile_ok(tiles@[j]),
            out@.len() == start.len() + i,
            forall|j: int| 0 <= j < start.len() ==> #[trigger] out@[j] == start[j],
            forall|j: int| 0 <= j < i ==> (#[trigger] out@[start.len() + j])@ == tile_prefix_blob(tiles@[j]),
        decreases n - i,
    {
        let tile = &tiles[i];
        proof {
            assert(tile_ok(tiles@[i as int]));
            reveal(tile_ok);
        }
        let ts = match crate::index::tile_triples(tile.bytes.as_slice()) {
            Some(v) => v,
            None => {
                proof {
                    assert(false);
                }
                Vec::new()
            },
        };
        proof {
            assert(crate::tile::tile_wf(ts@) && tile_bytes(ts@) == tile.bytes@);
            lemma_tile_prefix2_wf(ts@);
        }
        let groups = compute_prefix2(&ts);
        let blob = encode_prefix2(&groups);
        let ghost before = out@;
        out.push(blob);
        proof {
            assert forall|j: int| 0 <= j < i + 1 implies (#[trigger] out@[start.len() + j])@ == tile_prefix_blob(tiles@[j]) by {
                if j < i {
                    assert(out@[start.len() + j] == before[start.len() + j]);
                }
            }
        }
        i = i + 1;
    }
}

/// Check every tile of a run and collect their synopsis fields.
fn tiles_synopses(tiles: &Vec<Tile>, out: &mut Vec<u64>) -> (r: Result<(), FileError>)
    ensures
        (forall|j: int| 0 <= j < tiles@.len() ==> #[trigger] tile_ok(tiles@[j])) <==> r is Ok,
        only_big_fail(tiles@) ==> r == Err::<(), FileError>(
            FileError::Container("family tile exceeds fixed decompressed limit"),
        ),
        r is Ok ==> final(out)@.len() == old(out)@.len() + 4 * tiles@.len(),
        r is Ok ==> final(out)@.subrange(0, old(out)@.len() as int) == old(out)@ && syns_fields_ok(
            tiles@,
            final(out)@.subrange(old(out)@.len() as int, final(out)@.len() as int),
        ),
{
    let ghost start = out@;
    let n = tiles.len();
    let mut i: usize = 0;
    while i < n
        invariant
            n == tiles@.len(),
            i <= n,
            out@.len() == start.len() + 4 * i,
            out@.subrange(0, start.len() as int) == start,
            forall|j: int| 0 <= j < i ==> #[trigger] tile_ok(tiles@[j]),
            syns_fields_ok(tiles@.take(i as int), out@.subrange(start.len() as int, out@.len() as int)),
        decreases n - i,
    {
        let ghost before = out@;
        match push_tile_synopsis(&tiles[i], out) {
            Ok(()) => {},
            Err(e) => {
                proof {
                    if only_big_fail(tiles@) {
                        assert(tile_ok(tiles@[i as int]) || tile_big(tiles@[i as int]));
                    }
                }
                return Err(e);
            },
        }
        proof {
            assert(out@.subrange(0, start.len() as int) =~= before.subrange(0, start.len() as int));
            let w = out@.subrange(start.len() as int, out@.len() as int);
            let wb = before.subrange(start.len() as int, before.len() as int);
            assert forall|j: int| 0 <= j < i + 1 implies #[trigger] syn_fields_ok(tiles@.take(i + 1)[j], w.subrange(4 * j, 4 * j + 4)) by {
                if j < i {
                    assert(tiles@.take(i + 1)[j] == tiles@.take(i as int)[j]);
                    assert(w.subrange(4 * j, 4 * j + 4) =~= wb.subrange(4 * j, 4 * j + 4));
                    assert(syn_fields_ok(tiles@.take(i as int)[j], wb.subrange(4 * j, 4 * j + 4)));
                } else {
                    assert(w.subrange(4 * j, 4 * j + 4) =~= out@.subrange(before.len() as int, out@.len() as int));
                }
            }
        }
        i = i + 1;
    }
    proof {
        assert(tiles@.take(n as int) =~= tiles@);
        if only_big_fail(tiles@) {
            let j = choose|j: int| 0 <= j < tiles@.len() && tile_big(tiles@[j]);
            assert(tile_ok(tiles@[j]));
            reveal(tile_ok);
        }
    }
    Ok(())
}

/// The leading ranges of a run of tiles.
pub open spec fn ranges_of(tiles: Seq<Tile>) -> Seq<(u32, u32)> {
    tiles.map_values(|t: Tile| (t.min_a, t.max_a))
}

/// The records of a family built from sibling tiles: each tile's prefix-2
/// blob, then its bytes.
pub open spec fn tile_records(first: Seq<Tile>, second: Seq<Tile>) -> Seq<(Seq<u8>, Seq<u8>)> {
    Seq::new(
        first.len() + second.len(),
        |j: int| (tile_prefix_blob((first + second)[j]), (first + second)[j].bytes@),
    )
}

/// Check that the siblings share their ranges and that the ranges are in
/// order.
fn check_family_ranges(first: &Vec<Tile>, second: &Vec<Tile>) -> (r: Result<(), FileError>)
    requires
        first@.len() == second@.len(),
    ensures
        ((forall|i: int| 0 <= i < first@.len() ==> (#[trigger] first@[i]).min_a == second@[i].min_a
            && first@[i].max_a == second@[i].max_a) && ranges_chain_ok(first@)) <==> r is Ok,
{
    let n = first.len();
    let mut i: usize = 0;
    while i < n
        invariant
            n == first@.len(),
            n == second@.len(),
            i <= n,
            forall|j: int| 0 <= j < i ==> (#[trigger] first@[j]).min_a == second@[j].min_a && first@[j].max_a == second@[j].max_a,
            forall|j: int| 0 < j < i ==> #[trigger] chain_ok_at(first@, j),
        decreases n - i,
    {
        let a = &first[i];
        let b = &second[i];
        if a.min_a != b.min_a || a.max_a != b.max_a {
            return Err(FileError::Container("family sibling ranges differ"));
        }
        if i > 0 {
            let p = &first[i - 1];
            if p.min_a == a.min_a && p.max_a == a.max_a {
                if a.min_a != a.max_a {
                    proof {
                        assert(!chain_ok_at(first@, i as int));
                        assert(!ranges_chain_ok(first@));
                    }
                    return Err(FileError::Container("continuation range is not a single leading group"));
                }
            } else if a.min_a <= p.max_a {
                proof {
                    assert(!chain_ok_at(first@, i as int));
                    assert(!ranges_chain_ok(first@));
                }
                return Err(FileError::Container("family ranges overlap"));
            }
            proof {
                assert(chain_ok_at(first@, i as int));
            }
        }
        i = i + 1;
    }
    Ok(())
}

/// Directory fields `2j` and `2j + 1` hold tile `j`'s minimum as a delta from
/// the previous tile's, and its span.
pub open spec fn range_fields_at(d: Seq<u64>, first: Seq<Tile>, j: int) -> bool {
    d[2 * j] == first[j].min_a - (if j == 0 { 0 } else { first[j - 1].min_a as int }) && d[2 * j + 1]
        == first[j].max_a - first[j].min_a
}

/// The range fields of a family's directory: each tile's minimum as a delta
/// from the previous one, and its span.
fn family_range_fields(first: &Vec<Tile>) -> (r: (Vec<u64>, Vec<(u32, u32)>))
    requires
        ranges_chain_ok(first@),
        forall|i: int| 0 <= i < first@.len() ==> (#[trigger] first@[i]).min_a <= first@[i].max_a,
    ensures
        r.0@.len() == 2 * first@.len(),
        r.1@ == ranges_of(first@),
        forall|j: int| 0 <= j < first@.len() ==> #[trigger] range_fields_at(r.0@, first@, j),
{
    let n = first.len();
    let mut out: Vec<u64> = Vec::new();
    let mut prev_min: u32 = 0;
    let mut ranges: Vec<(u32, u32)> = Vec::new();
    let mut i: usize = 0;
    while i < n
        invariant
            n == first@.len(),
            i <= n,
            out@.len() == 2 * i,
            ranges@.len() == i,
            i > 0 ==> prev_min == first@[i - 1].min_a,
            i == 0 ==> prev_min == 0,
            ranges_chain_ok(first@),
            forall|j: int| 0 <= j < n ==> (#[trigger] first@[j]).min_a <= first@[j].max_a,
            forall|j: int| 0 <= j < i ==> #[trigger] ranges@[j] == (first@[j].min_a, first@[j].max_a),
            forall|j: int| 0 <= j < i ==> #[trigger] out@[2 * j] == first@[j].min_a - (if j == 0 { 0 } else { first@[j - 1].min_a as int })
                && out@[2 * j + 1] == first@[j].max_a - first@[j].min_a,
        decreases n - i,
    {
        let t = &first[i];
        proof {
            if i > 0 {
                assert(chain_ok_at(first@, i as int));
                assert(first@[i - 1].min_a <= first@[i - 1].max_a);
            }
        }
        let ghost before = out@;
        out.push((t.min_a - prev_min) as u64);
        out.push((t.max_a - t.min_a) as u64);
        ranges.push((t.min_a, t.max_a));
        proof {
            assert forall|j: int| 0 <= j < i + 1 implies #[trigger] out@[2 * j] == first@[j].min_a - (if j == 0 { 0 } else { first@[j - 1].min_a as int })
                && out@[2 * j + 1] == first@[j].max_a - first@[j].min_a by {
                if j < i {
                    assert(out@[2 * j] == before[2 * j]);
                    assert(out@[2 * j + 1] == before[2 * j + 1]);
                }
            }
        }
        prev_min = t.min_a;
        i = i + 1;
    }
    proof {
        assert(ranges@ =~= ranges_of(first@));
        assert forall|j: int| 0 <= j < n implies #[trigger] range_fields_at(out@, first@, j) by {
            assert(out@[2 * j] == first@[j].min_a - (if j == 0 { 0 } else { first@[j - 1].min_a as int })
                && out@[2 * j + 1] == first@[j].max_a - first@[j].min_a);
        }
    }
    (out, ranges)
}

/// Record `j`'s directory entry carries `flag`, payload length `len` and
/// prefix-2 length `plen`.
pub open spec fn entry_fields_are(d: Seq<u64>, n: nat, j: int, flag: u8, len: nat, plen: nat) -> bool {
    d[2 * n + 3 * j] == flag && d[2 * n + 3 * j + 1] == len && d[2 * n + 3 * j + 2] == plen
}

/// Append each record's directory entry: its flags, its payload length and
/// its prefix-2 blob's length.
fn push_entry_fields(out: &mut Vec<u64>, first: &Vec<Tile>, second: &Vec<Tile>, flags: &Vec<u8>, blobs: &Vec<Vec<u8>>)
    requires
        blobs@.len() == 2 * first@.len(),
        forall|j: int| 0 <= j < 2 * first@.len() ==> (#[trigger] blobs@[j])@ == tile_prefix_blob((first@ + second@)[j]),
        first@.len() == second@.len(),
        first@.len() <= usize::MAX / 16,
        flags@.len() == first@.len(),
        forall|i: int| 0 <= i < first@.len() ==> #[trigger] flags@[i] == range_flags(ranges_of(first@), i),
        old(out)@.len() == 2 * first@.len(),
    ensures
        final(out)@.len() == 8 * first@.len(),
        forall|j: int| 0 <= j < 2 * first@.len() ==> #[trigger] final(out)@[j] == old(out)@[j],
        forall|j: int| 0 <= j < 2 * first@.len() ==> #[trigger] entry_fields_are(final(out)@, first@.len(), j, range_flags(ranges_of(first@), sib(first@.len(), j)), (first@ + second@)[j].bytes@.len(), tile_prefix_blob((first@ + second@)[j]).len()),
{
    let n = first.len();
    let ghost both = first@ + second@;
    let mut k: usize = 0;
    while k < 2 * n
        invariant
            n == first@.len(),
            n == second@.len(),
            n <= usize::MAX / 16,
            both == first@ + second@,
            flags@.len() == n,
            blobs@.len() == 2 * n,
            forall|j: int| 0 <= j < 2 * n ==> (#[trigger] blobs@[j])@ == tile_prefix_blob(both[j]),
            k <= 2 * n,
            out@.len() == 2 * n + 3 * k,
            out@.subrange(0, 2 * n as int) == old(out)@,
            forall|j: int| 0 <= j < k ==> #[trigger] entry_fields_are(out@, n as nat, j, flags@[sib(n as nat, j)], both[j].bytes@.len(), tile_prefix_blob(both[j]).len()),
        decreases 2 * n - k,
    {
        let t = if k < n {
            &first[k]
        } else {
            &second[k - n]
        };
        let fl = flags[if k < n {
            k
        } else {
            k - n
        }];
        let ghost before = out@;
        out.push(fl as u64);
        out.push(t.bytes.len() as u64);
        out.push(blobs[k].len() as u64);
        proof {
            assert(blobs@[k as int]@ == tile_prefix_blob(both[k as int]));
        }
        proof {
            assert(out@.subrange(0, 2 * n as int) =~= before.subrange(0, 2 * n as int));
            assert(*t == both[k as int]);
            assert forall|j: int| 0 <= j < k + 1 implies #[trigger] entry_fields_are(out@, n as nat, j, flags@[sib(n as nat, j)], both[j].bytes@.len(), tile_prefix_blob(both[j]).len()) by {
                if j < k {
                    assert(entry_fields_are(before, n as nat, j, flags@[sib(n as nat, j)], both[j].bytes@.len(), tile_prefix_blob(both[j]).len()));
                    assert(out@[2 * n + 3 * j] == before[2 * n + 3 * j]);
                    assert(out@[2 * n + 3 * j + 1] == before[2 * n + 3 * j + 1]);
                    assert(out@[2 * n + 3 * j + 2] == before[2 * n + 3 * j + 2]);
                }
            }
        }
        k = k + 1;
    }
    proof {
        assert forall|j: int| 0 <= j < 2 * n implies #[trigger] out@[j] == old(out)@[j] by {
            assert(out@.subrange(0, 2 * n as int)[j] == out@[j]);
        }
        assert forall|j: int| 0 <= j < 2 * n implies #[trigger] entry_fields_are(out@, n as nat, j, range_flags(ranges_of(first@), sib(n as nat, j)), both[j].bytes@.len(), tile_prefix_blob(both[j]).len()) by {
            assert(entry_fields_are(out@, n as nat, j, flags@[sib(n as nat, j)], both[j].bytes@.len(), tile_prefix_blob(both[j]).len()));
        }
    }
}

/// Lay out a family payload from its fields and sibling tiles.
fn write_family_bytes(n: usize, d: &Vec<u64>, t: &Vec<u64>, first: &Vec<Tile>, second: &Vec<Tile>, blobs: &Vec<Vec<u8>>) -> (r: Vec<u8>)
    requires
        first@.len() == n,
        second@.len() == n,
        n <= usize::MAX / 16,
        blobs@.len() == 2 * n,
        forall|j: int| 0 <= j < 2 * n ==> (#[trigger] blobs@[j])@ == tile_prefix_blob((first@ + second@)[j]),
    ensures
        r@ == family_wire((n as nat, d@, tile_records(first@, second@), t@)),
{
    let mut dir_bytes: Vec<u8> = Vec::new();
    crate::varint::write_canonicals(&mut dir_bytes, d);
    let mut trailer: Vec<u8> = Vec::new();
    crate::varint::write_canonicals(&mut trailer, t);
    proof {
        assert(dir_bytes@ =~= canonicals_bytes(d@));
        assert(trailer@ =~= canonicals_bytes(t@));
    }
    let mut out: Vec<u8> = Vec::new();
    crate::varint::write_uvarint(&mut out, n as u64);
    crate::varint::write_uvarint(&mut out, dir_bytes.len() as u64);
    crate::varint::write_uvarint(&mut out, trailer.len() as u64);
    out.extend_from_slice(dir_bytes.as_slice());
    let ghost recs = tile_records(first@, second@);
    let ghost both = first@ + second@;
    let ghost head = out@;
    let mut k: usize = 0;
    while k < 2 * n
        invariant
            n == first@.len(),
            n == second@.len(),
            n <= usize::MAX / 16,
            both == first@ + second@,
            k <= 2 * n,
            recs == tile_records(first@, second@),
            out@ == head + records_bytes(recs.take(k as int)),
            blobs@.len() == 2 * n,
            forall|j: int| 0 <= j < 2 * n ==> (#[trigger] blobs@[j])@ == tile_prefix_blob(both[j]),
        decreases 2 * n - k,
    {
        let tile = if k < n {
            &first[k]
        } else {
            &second[k - n]
        };
        proof {
            assert(*tile == both[k as int]);
            assert(recs.take(k + 1).drop_last() =~= recs.take(k as int));
            assert(blobs@[k as int]@ == tile_prefix_blob(both[k as int]));
            assert(recs.take(k + 1).last() == (blobs@[k as int]@, tile.bytes@));
        }
        out.extend_from_slice(blobs[k].as_slice());
        out.extend_from_slice(tile.bytes.as_slice());
        proof {
            assert(out@ =~= head + records_bytes(recs.take(k + 1)));
        }
        k = k + 1;
    }
    out.extend_from_slice(trailer.as_slice());
    proof {
        assert(recs.take(2 * n as int) =~= recs);
        assert(out@ =~= family_wire((n as nat, d@, recs, t@)));
    }
    out
}

/// A run of tiles that can be carried is ordered within each tile.
proof fn lemma_tile_ok_order(t: Tile)
    requires
        tile_ok(t),
    ensures
        t.min_a <= t.max_a,
{
    reveal(tile_ok);
    let ts = tile_content(t.bytes@)->0;
    if ts.len() > 1 {
        assert(crate::tile::triple_lt(ts[0], ts[ts.len() - 1]));
    }
}

/// The running minima and maxima of an encoded directory are the tiles'.
proof fn lemma_enc_ranges(d: Seq<u64>, first: Seq<Tile>)
    requires
        ranges_chain_ok(first),
        d.len() >= 2 * first.len(),
        forall|i: int| 0 <= i < first.len() ==> (#[trigger] first[i]).min_a <= first[i].max_a,
        forall|j: int| 0 <= j < first.len() ==> #[trigger] d[2 * j] == first[j].min_a - (if j == 0 { 0 } else { first[j - 1].min_a as int })
            && d[2 * j + 1] == first[j].max_a - first[j].min_a,
    ensures
        forall|i: int| 0 <= i < first.len() ==> #[trigger] fam_min(d, i) == first[i].min_a && fam_max(d, i) == first[i].max_a,
{
    let n = first.len();
    let mins = first.map_values(|x: Tile| x.min_a);
    assert forall|j: int| 0 <= j < mins.len() implies #[trigger] d[2 * j] == mins[j] - (if j == 0 { 0 } else { mins[j - 1] as int }) by {
    }
    assert forall|i: int| 0 <= i < n implies #[trigger] fam_min(d, i) == first[i].min_a && fam_max(d, i)
        == first[i].max_a by {
        lemma_fam_min_from(d, mins, i);
    }
}

/// An encoded directory is consistent.
#[verifier::rlimit(50)]
proof fn lemma_enc_dir(d: Seq<u64>, first: Seq<Tile>, second: Seq<Tile>)
    requires
        ranges_chain_ok(first),
        first.len() == second.len(),
        d.len() == 8 * first.len(),
        forall|i: int| 0 <= i < first.len() ==> #[trigger] fam_min(d, i) == first[i].min_a && fam_max(d, i) == first[i].max_a,
        forall|j: int| 0 <= j < 2 * first.len() ==> #[trigger] entry_fields_are(d, first.len(), j, range_flags(ranges_of(first), sib(first.len(), j)), (first + second)[j].bytes@.len(), tile_prefix_blob((first + second)[j]).len()),
    ensures
        dir_ok(d, first.len()),
{
    let n = first.len();
    assert forall|i: int| 0 <= i < n implies #[trigger] fam_max(d, i) <= u32::MAX by {
        assert(fam_max(d, i) == first[i].max_a);
    }
    assert forall|i: int|
        0 < i < n implies (#[trigger] same_range(d, i - 1, i) ==> d[2 * i + 1] == 0) && (!same_range(
            d,
            i - 1,
            i,
        ) ==> fam_min(d, i) > fam_max(d, i - 1)) by {
        assert(fam_min(d, i) == first[i].min_a && fam_max(d, i) == first[i].max_a);
        assert(fam_min(d, i - 1) == first[i - 1].min_a && fam_max(d, i - 1) == first[i - 1].max_a);
        assert(chain_ok_at(first, i));
    }
    assert forall|k: int| 0 <= k < 2 * n implies #[trigger] entry_ok(d, n, k) by {
        let i = sib(n, k);
        assert(entry_fields_are(d, n, k, range_flags(ranges_of(first), i), (first + second)[k].bytes@.len(), tile_prefix_blob((first + second)[k]).len()));
        assert(fam_min(d, i) == first[i].min_a && fam_max(d, i) == first[i].max_a);
        if i > 0 {
            assert(fam_min(d, i - 1) == first[i - 1].min_a && fam_max(d, i - 1) == first[i - 1].max_a);
            assert(ranges_of(first)[i - 1] == (first[i - 1].min_a, first[i - 1].max_a));
        }
        if i + 1 < n {
            assert(fam_min(d, i + 1) == first[i + 1].min_a && fam_max(d, i + 1) == first[i + 1].max_a);
            assert(ranges_of(first)[i + 1] == (first[i + 1].min_a, first[i + 1].max_a));
        }
        assert(ranges_of(first)[i] == (first[i].min_a, first[i].max_a));
        assert(ranges_of(first).len() == n);
    }
}

/// The synopsis fields of sibling `k`'s tile are the trailer's record `k`.
proof fn lemma_enc_syn(t: Seq<u64>, first: Seq<Tile>, second: Seq<Tile>, k: int)
    requires
        first.len() == second.len(),
        t.len() == 8 * first.len(),
        syns_fields_ok(first, t.subrange(0, 4 * first.len() as int)),
        syns_fields_ok(second, t.subrange(4 * first.len() as int, 8 * first.len() as int)),
        0 <= k < 2 * first.len(),
    ensures
        syn_fields_ok((first + second)[k], t.subrange(4 * k, 4 * k + 4)),
{
    let n = first.len();
    if k < n {
        assert(syn_fields_ok(first[k], t.subrange(0, 4 * n as int).subrange(4 * k, 4 * k + 4)));
        assert(t.subrange(0, 4 * n as int).subrange(4 * k, 4 * k + 4) =~= t.subrange(4 * k, 4 * k + 4));
    } else {
        assert(syn_fields_ok(second[k - n], t.subrange(4 * n as int, 8 * n as int).subrange(4 * (k - n), 4 * (k - n) + 4)));
        assert(t.subrange(4 * n as int, 8 * n as int).subrange(4 * (k - n), 4 * (k - n) + 4) =~= t.subrange(4 * k, 4 * k + 4));
    }
}

/// A valid tile's prefix-2 blob is within budget and, when written,
/// decodes to the tile's directory.
proof fn lemma_tile_blob_ok(t: Tile)
    requires
        tile_ok(t),
    ensures
        tile_prefix_blob(t).len() <= PREFIX2_FORMAT_BUDGET,
        tile_prefix_blob(t).len() == 0 || spec_prefix2(tile_prefix_blob(t)) == Some(
            tile_prefix2(tile_content(t.bytes@)->0),
        ),
{
    reveal(tile_ok);
    let ts = tile_content(t.bytes@)->0;
    assert(crate::tile::tile_wf(ts) && tile_bytes(ts) == t.bytes@);
    crate::tile::lemma_triples_len(ts);
    lemma_tile_prefix2_wf(ts);
    lemma_prefix2_roundtrip(tile_prefix2(ts));
}

/// The framing an encoder builds from valid sibling tiles is consistent,
/// its records are valid, and it carries those tiles.
#[verifier::rlimit(50)]
proof fn lemma_encoded_family_ok(f: FamilyFields, first: Seq<Tile>, second: Seq<Tile>)
    requires
        family_encodable(first, second, CODEC_NONE),
        f.0 == first.len(),
        f.1.len() == 8 * f.0,
        forall|j: int| 0 <= j < f.0 ==> #[trigger] f.1[2 * j] == first[j].min_a - (if j == 0 { 0 } else { first[j - 1].min_a as int })
            && f.1[2 * j + 1] == first[j].max_a - first[j].min_a,
        forall|j: int| 0 <= j < 2 * f.0 ==> #[trigger] entry_fields_are(f.1, f.0, j, range_flags(ranges_of(first), sib(f.0, j)), (first + second)[j].bytes@.len(), tile_prefix_blob((first + second)[j]).len()),
        f.2 == tile_records(first, second),
        f.3.len() == 8 * f.0,
        syns_fields_ok(first, f.3.subrange(0, 4 * f.0 as int)),
        syns_fields_ok(second, f.3.subrange(4 * f.0 as int, 8 * f.0 as int)),
    ensures
        family_wf(f),
        records_ok(f, CODEC_NONE),
        frames_tiles(f, first, second),
{
    let (n, d, rs, t) = f;
    let both = first + second;
    assert forall|i: int| 0 <= i < n implies (#[trigger] first[i]).min_a <= first[i].max_a by {
        lemma_tile_ok_order(first[i]);
    }
    lemma_enc_ranges(d, first);
    lemma_enc_dir(d, first, second);
    assert forall|k: int|
        0 <= k < 2 * n implies #[trigger] t[4 * k] + t[4 * k + 1] <= u32::MAX && t[4 * k + 2] + t[4 * k
            + 3] <= u32::MAX && t[4 * k] <= u32::MAX && t[4 * k + 2] <= u32::MAX by {
        lemma_enc_syn(t, first, second, k);
        assert(t.subrange(4 * k, 4 * k + 4)[0] == t[4 * k]);
        assert(t.subrange(4 * k, 4 * k + 4)[1] == t[4 * k + 1]);
        assert(t.subrange(4 * k, 4 * k + 4)[2] == t[4 * k + 2]);
        assert(t.subrange(4 * k, 4 * k + 4)[3] == t[4 * k + 3]);
    }
    assert(trailer_ok(t, n));
    assert forall|k: int| 0 <= k < 2 * n implies (#[trigger] rs[k]).0.len() == entry_at(d, n, k, 2)
        && rs[k].1.len() == entry_at(d, n, k, 1) by {
        assert(rs[k] == (tile_prefix_blob(both[k]), both[k].bytes@));
        assert(entry_fields_are(d, n, k, range_flags(ranges_of(first), sib(n, k)), both[k].bytes@.len(), tile_prefix_blob(both[k]).len()));
    }
    assert forall|k: int| 0 <= k < 2 * n implies #[trigger] record_ok(f, CODEC_NONE, k) by {
        let i = sib(n, k);
        assert(rs[k] == (tile_prefix_blob(both[k]), both[k].bytes@));
        if k < n {
            assert(both[k] == first[k]);
        } else {
            assert(both[k] == second[k - n]);
        }
        lemma_tile_blob_ok(both[k]);
        reveal(tile_ok);
        assert(fam_min(d, i) == first[i].min_a && fam_max(d, i) == first[i].max_a);
        lemma_enc_syn(t, first, second, k);
        assert(t.subrange(4 * k, 4 * k + 4)[0] == t[4 * k]);
        assert(t.subrange(4 * k, 4 * k + 4)[1] == t[4 * k + 1]);
        assert(t.subrange(4 * k, 4 * k + 4)[2] == t[4 * k + 2]);
        assert(t.subrange(4 * k, 4 * k + 4)[3] == t[4 * k + 3]);
        if k < n {
            assert(both[k] == first[k]);
        } else {
            assert(both[k] == second[k - n]);
            assert(tile_ok(second[k - n]));
        }
    }
    assert forall|i: int| 0 <= i < n implies #[trigger] fam_min(d, i) == first[i].min_a && fam_max(d, i) == first[i].max_a
        && second[i].min_a == first[i].min_a && second[i].max_a == first[i].max_a
        && rs[i] == (tile_prefix_blob(first[i]), first[i].bytes@) && rs[n + i] == (tile_prefix_blob(second[i]), second[i].bytes@) by {
        assert(first[i] == first[i]);
        assert(both[i] == first[i]);
        assert(both[n + i] == second[i]);
    }
}

/// Encode one paired family from its sibling tiles. Each record carries its
/// tile's prefix-2 blob, and tiles are stored uncompressed, the only codec
/// this build writes.
#[verifier::rlimit(100)]
#[verifier::spinoff_prover]
pub fn encode_family_container(first: &Vec<Tile>, second: &Vec<Tile>, codec: u8) -> (r: Result<
    Vec<u8>,
    FileError,
>)
    ensures
        family_encodable(first@, second@, codec) <==> r is Ok,
        fails_on_tile_size(first@, second@, codec) ==> r == Err::<Vec<u8>, FileError>(
            FileError::Container("family tile exceeds fixed decompressed limit"),
        ),
        r matches Ok(b) ==> exists|f: FamilyFields|
            family_wf(f) && family_wire(f) == b@ && records_ok(f, codec) && frames_tiles(
                f,
                first@,
                second@,
            ),
{
    if first.len() != second.len() {
        return Err(FileError::Container("family tile count mismatch"));
    }
    let n = first.len();
    if codec != CODEC_NONE && n > 0 {
        return Err(FileError::UnknownCodec(codec));
    }
    if n > usize::MAX / 16 {
        return Err(FileError::Container("family tile count too large"));
    }
    check_family_ranges(first, second)?;
    let mut syns: Vec<u64> = Vec::new();
    match tiles_synopses(first, &mut syns) {
        Ok(()) => {},
        Err(e) => {
            proof {
                let j = choose|j: int| 0 <= j < n && !tile_ok(first@[j]);
                assert(!tile_ok(first@[j]));
            }
            return Err(e);
        },
    }
    let ghost first_syns = syns@;
    proof {
        assert(first_syns.subrange(0, 0) =~= Seq::<u64>::empty());
        assert(first_syns.subrange(0, first_syns.len() as int) =~= first_syns);
    }
    match tiles_synopses(second, &mut syns) {
        Ok(()) => {},
        Err(e) => {
            proof {
                let j = choose|j: int| 0 <= j < n && !tile_ok(second@[j]);
                assert(!tile_ok(second@[j]));
                assert(!(first@[j].min_a == second@[j].min_a && first@[j].max_a == second@[j].max_a
                    && tile_ok(first@[j]) && tile_ok(second@[j])));
                assert(!family_encodable(first@, second@, codec));
            }
            return Err(e);
        },
    }
    proof {
        assert forall|i: int| 0 <= i < n implies (#[trigger] first@[i]).min_a <= first@[i].max_a by {
            lemma_tile_ok_order(first@[i]);
        }
    }
    let mut blobs: Vec<Vec<u8>> = Vec::new();
    tile_blobs(first, &mut blobs);
    let ghost b1 = blobs@;
    proof {
        assert forall|j: int| 0 <= j < n implies (#[trigger] b1[j])@ == tile_prefix_blob(first@[j]) by {
            assert(b1[0 + j] == b1[j]);
        }
    }
    tile_blobs(second, &mut blobs);
    proof {
        assert forall|j: int| 0 <= j < 2 * n implies (#[trigger] blobs@[j])@ == tile_prefix_blob((first@ + second@)[j]) by {
            if j < n {
                assert((first@ + second@)[j] == first@[j]);
                assert(blobs@[j] == b1[j]);
            } else {
                assert((first@ + second@)[j] == second@[j - n]);
                assert(blobs@[n + (j - n)] == blobs@[j]);
            }
        }
    }
    let (mut dir, ranges) = family_range_fields(first);
    let flags = family_continuation_flags(&ranges);
    let ghost range_part = dir@;
    push_entry_fields(&mut dir, first, second, &flags, &blobs);
    let out = write_family_bytes(n, &dir, &syns, first, second, &blobs);
    let ghost f: FamilyFields = (n as nat, dir@, tile_records(first@, second@), syns@);
    proof {
        assert(first_syns.len() == 4 * n);
        assert(syns_fields_ok(second@, syns@.subrange(first_syns.len() as int, syns@.len() as int)));
        assert(syns@.subrange(first_syns.len() as int, syns@.len() as int).len() == 4 * n);
        assert(syns@.len() == 8 * n);
        assert(syns@.subrange(0, 4 * n as int) =~= first_syns);
        assert forall|j: int| 0 <= j < n implies #[trigger] dir@[2 * j] == first@[j].min_a - (if j == 0 { 0 } else { first@[j - 1].min_a as int })
            && dir@[2 * j + 1] == first@[j].max_a - first@[j].min_a by {
            assert(range_fields_at(range_part, first@, j));
            assert(dir@[2 * j] == range_part[2 * j]);
            assert(dir@[2 * j + 1] == range_part[2 * j + 1]);
        }
        lemma_encoded_family_ok(f, first@, second@);
    }
    Ok(out)
}

/// The family law: what the encoder writes, the decoder accepts, and it
/// gives back the sibling tiles with their bytes and leading ranges.
pub proof fn lemma_family_roundtrip(first: Seq<Tile>, second: Seq<Tile>, b: Seq<u8>, out: DecodedFamily)
    requires
        exists|f: FamilyFields|
            family_wf(f) && family_wire(f) == b && records_ok(f, CODEC_NONE) && frames_tiles(f, first, second),
        exists|g: FamilyFields|
            family_wf(g) && family_wire(g) == b && records_ok(g, CODEC_NONE) && decoded_as(out, g, CODEC_NONE),
    ensures
        family_valid(b, CODEC_NONE),
        out.first@.len() == first.len(),
        out.second@.len() == second.len(),
        forall|i: int| 0 <= i < first.len() ==> (#[trigger] out.first@[i]).bytes@ == first[i].bytes@
            && out.first@[i].min_a == first[i].min_a && out.first@[i].max_a == first[i].max_a,
        forall|i: int| 0 <= i < second.len() ==> (#[trigger] out.second@[i]).bytes@ == second[i].bytes@
            && out.second@[i].min_a == second[i].min_a && out.second@[i].max_a == second[i].max_a,
{
    let f = choose|f: FamilyFields|
        family_wf(f) && family_wire(f) == b && records_ok(f, CODEC_NONE) && frames_tiles(f, first, second);
    let g = choose|g: FamilyFields|
        family_wf(g) && family_wire(g) == b && records_ok(g, CODEC_NONE) && decoded_as(out, g, CODEC_NONE);
    lemma_wire_unique(f, g);
    let n = f.0;
    assert forall|i: int| 0 <= i < first.len() implies (#[trigger] out.first@[i]).bytes@ == first[i].bytes@
        && out.first@[i].min_a == first[i].min_a && out.first@[i].max_a == first[i].max_a by {
        assert(out.directory.ranges@[i] == out.directory.ranges@[i]);
        assert(record_decoded(out.first@[i], out.directory.first_prefix2@[i], f, CODEC_NONE, i));
        assert(record_ok(f, CODEC_NONE, i));
        assert(fam_min(f.1, i) == first[i].min_a);
    }
    assert forall|i: int| 0 <= i < second.len() implies (#[trigger] out.second@[i]).bytes@ == second[i].bytes@
        && out.second@[i].min_a == second[i].min_a && out.second@[i].max_a == second[i].max_a by {
        assert(out.directory.ranges@[i] == out.directory.ranges@[i]);
        assert(record_decoded(out.second@[i], out.directory.second_prefix2@[i], f, CODEC_NONE, n + i));
        assert(record_ok(f, CODEC_NONE, n + i));
        assert(fam_min(f.1, i) == first[i].min_a);
        assert(sib(n, n + i) == i);
    }
}

} // verus!
