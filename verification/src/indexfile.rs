//! The index container of a graph, in both generations: one tiled section
//! per carried permutation, or three paired-family payloads.
use vstd::prelude::*;

use crate::codec::{FileError, CODEC_NONE};
use crate::container::{
    container_bytes, container_section_payload_ranges, decode_container, encode_container, spec_container_ranges,
    spec_decode_container,
};
use crate::family::{
    decode_family_container, decoded_as, encode_family_container, entry_at, family_bytes, family_encodable,
    family_valid, family_varint, records_total,
    family_wf, family_wire, fam_max, fam_min, frames_tiles, record_ok, records_ok, FamilyFields,
};
use crate::header::{LEGACY_FORMAT_VERSION, NEXT_FORMAT_VERSION};
use crate::varint::{canonical_split, spec_read_canonical, split_canonicals};
use crate::index::{
    has_perm, perm_count, perm_present, perms_below, perms_len, GraphIndex, Tile, NUM_PERMS, PERMS_ALL,
};
use crate::tiled::{
    decode_tiled_section, encode_tiled_section, parse_tile_directory, spec_decode_tiled, spec_tile_directory,
    tiled_section_bytes, TileDirEntry,
};
use crate::image::ByteRange;

verus! {

/// The tiles of slot `k`, or none when the index holds fewer slots.
pub open spec fn slot_tiles(sections: Seq<Vec<Tile>>, k: int) -> Seq<Tile> {
    if 0 <= k < sections.len() {
        sections[k]@
    } else {
        seq![]
    }
}

/// The tiled payloads of the carried slots below `k`, in slot order.
pub open spec fn perm_payloads(mask: u8, sections: Seq<Vec<Tile>>, k: int) -> Seq<Seq<u8>>
    decreases k,
{
    if k <= 0 {
        seq![]
    } else {
        perm_payloads(mask, sections, k - 1) + if has_perm(mask, k - 1) {
            seq![tiled_section_bytes(slot_tiles(sections, k - 1))]
        } else {
            seq![]
        }
    }
}

/// Encode an index container: one tiled section per carried permutation, in
/// slot order, framed without compression (tiles carry their own).
pub fn encode_index_container(index: &GraphIndex, codec: u8) -> (r: Vec<u8>)
    ensures
        r@ == container_bytes(perm_payloads(index.perms, index.sections@, 6)),
{
    let mut payloads: Vec<Vec<u8>> = Vec::new();
    let empty: Vec<Tile> = Vec::new();
    let mut k: usize = 0;
    while k < 6
        invariant
            k <= 6,
            empty@.len() == 0,
            payloads@.map_values(|p: Vec<u8>| p@) == perm_payloads(index.perms, index.sections@, k as int),
        decreases 6 - k,
    {
        let ghost before = payloads@;
        if perm_present(index.perms, k) {
            let tiles = if k < index.sections.len() {
                &index.sections[k]
            } else {
                &empty
            };
            proof {
                assert(tiles@ == slot_tiles(index.sections@, k as int));
            }
            payloads.push(encode_tiled_section(tiles, codec));
        }
        proof {
            assert(payloads@.map_values(|p: Vec<u8>| p@) =~= perm_payloads(index.perms, index.sections@, k + 1));
        }
        k = k + 1;
    }
    encode_container(&payloads, CODEC_NONE)
}

/// A tile as plain values: leading range and bytes.
pub open spec fn tile_view(t: Tile) -> (u32, u32, Seq<u8>) {
    (t.min_a, t.max_a, t.bytes@)
}

/// `idx` holds, in each carried slot, the tiles the matching payload of `ps`
/// decodes to, and nothing elsewhere.
pub open spec fn legacy_decoded(idx: GraphIndex, ps: Seq<Seq<u8>>, perms: u8, codec: u8) -> bool {
    &&& idx.perms == perms
    &&& idx.sections@.len() == 6
    &&& forall|k: int|
        0 <= k < 6 ==> if has_perm(perms, k) {
            spec_decode_tiled(ps[perms_below(perms, k) as int], codec) matches Ok(ts) && (
            #[trigger] idx.sections@[k])@.map_values(|t: Tile| tile_view(t)) == ts && forall|j: int|
                0 <= j < idx.sections@[k]@.len() ==> idx.sections@[k]@[j].syn is None
        } else {
            idx.sections@[k]@.len() == 0
        }
}

/// Every carried slot's payload decodes.
pub open spec fn legacy_payloads_ok(ps: Seq<Seq<u8>>, perms: u8, codec: u8) -> bool {
    forall|k: int| 0 <= k < 6 && has_perm(perms, k) ==> #[trigger] spec_decode_tiled(ps[perms_below(perms, k) as int], codec) is Ok
}

/// Number of carried slots below `k` never exceeds `k`, and grows by one
/// at each carried slot.
pub proof fn lemma_perms_below(mask: u8, k: int)
    ensures
        perms_below(mask, k) <= (if k < 0 { 0 } else { k }),
        0 <= k ==> perms_below(mask, k + 1) == perms_below(mask, k) + (if has_perm(mask, k) { 1nat } else { 0nat }),
        forall|j: int| 0 <= j <= k ==> #[trigger] perms_below(mask, j) <= perms_below(mask, k),
    decreases k,
{
    if k > 0 {
        lemma_perms_below(mask, k - 1);
    }
}

/// Tiles holding decoded leading ranges and bytes, with no synopsis.
fn tiles_of(decoded: &Vec<(u32, u32, Vec<u8>)>) -> (r: Vec<Tile>)
    ensures
        r@.map_values(|t: Tile| tile_view(t)) == decoded@.map_values(|x: (u32, u32, Vec<u8>)| (x.0, x.1, x.2@)),
        forall|y: int| 0 <= y < r@.len() ==> #[trigger] r@[y].syn is None,
{
    let mut tiles: Vec<Tile> = Vec::new();
    let n = decoded.len();
    let mut i: usize = 0;
    while i < n
        invariant
            n == decoded@.len(),
            i <= n,
            tiles@.len() == i,
            forall|y: int| 0 <= y < i ==> #[trigger] tile_view(tiles@[y]) == (decoded@[y].0, decoded@[y].1, decoded@[y].2@)
                && tiles@[y].syn is None,
        decreases n - i,
    {
        let (lo, hi, b) = &decoded[i];
        tiles.push(Tile { min_a: *lo, max_a: *hi, bytes: b.clone(), syn: None });
        i = i + 1;
    }
    proof {
        assert(tiles@.map_values(|t: Tile| tile_view(t)) =~= decoded@.map_values(|x: (u32, u32, Vec<u8>)| (x.0, x.1, x.2@)));
        assert forall|y: int| 0 <= y < tiles@.len() implies #[trigger] tiles@[y].syn is None by {
            assert(tile_view(tiles@[y]) == (decoded@[y].0, decoded@[y].1, decoded@[y].2@));
        }
    }
    tiles
}

/// Decode an index container of the first generation: the section count
/// must match the carried permutations, and every section must decode.
/// What decoding a first-generation index container gives: the container's
/// error, or the carried slots' tiles exactly when every slot decodes.
pub open spec fn legacy_index_result(bytes: Seq<u8>, codec: u8, perms: u8, r: Result<GraphIndex, FileError>) -> bool {
    match spec_decode_container(bytes, CODEC_NONE, perm_count(perms)) {
        Err(e) => r == Err::<GraphIndex, FileError>(e),
        Ok(ps) => (legacy_payloads_ok(ps, perms, codec) <==> r is Ok) && (r matches Ok(idx) ==> legacy_decoded(
            idx,
            ps,
            perms,
            codec,
        )),
    }
}

#[verifier::rlimit(50)]
pub fn decode_index_container(bytes: &[u8], codec: u8, perms: u8) -> (r: Result<GraphIndex, FileError>)
    ensures
        legacy_index_result(bytes@, codec, perms, r),
{
    let count = perms_len(perms);
    let secs = decode_container(bytes, CODEC_NONE, count)?;
    proof {
        crate::container::lemma_decode_container_len(bytes@, CODEC_NONE, count as nat);
    }
    let ghost ps = secs@.map_values(|x: Vec<u8>| x@);
    let mut sections: Vec<Vec<Tile>> = Vec::new();
    let mut j: usize = 0;
    let mut k: usize = 0;
    while k < 6
        invariant
            k <= 6,
            secs@.len() == count,
            count == perm_count(perms),
            ps == secs@.map_values(|x: Vec<u8>| x@),
            spec_decode_container(bytes@, CODEC_NONE, perm_count(perms)) == Ok::<Seq<Seq<u8>>, FileError>(ps),
            j == perms_below(perms, k as int),
            sections@.len() == k,
            forall|x: int| 0 <= x < k && has_perm(perms, x) ==> #[trigger] spec_decode_tiled(ps[perms_below(perms, x) as int], codec) is Ok,
            forall|x: int|
                0 <= x < k ==> if has_perm(perms, x) {
                    spec_decode_tiled(ps[perms_below(perms, x) as int], codec) matches Ok(ts) && (
                    #[trigger] sections@[x])@.map_values(|t: Tile| tile_view(t)) == ts && forall|y: int|
                        0 <= y < sections@[x]@.len() ==> sections@[x]@[y].syn is None
                } else {
                    sections@[x]@.len() == 0
                },
        decreases 6 - k,
    {
        proof {
            lemma_perms_below(perms, k as int);
            lemma_perms_below(perms, 6);
        }
        if perm_present(perms, k) {
            let decoded = match decode_tiled_section(secs[j].as_slice(), codec) {
                Ok(d) => d,
                Err(e) => {
                    proof {
                        assert(secs@[j as int]@ == ps[j as int]);
                        assert(spec_decode_tiled(ps[perms_below(perms, k as int) as int], codec) is Err);
                        assert(!legacy_payloads_ok(ps, perms, codec));
                    }
                    return Err(e);
                },
            };
            let tiles = tiles_of(&decoded);
            let ghost before = sections@;
            sections.push(tiles);
            proof {
                assert(secs@[j as int]@ == ps[j as int]);
                assert forall|x: int| 0 <= x < k + 1 && has_perm(perms, x) implies #[trigger] spec_decode_tiled(ps[perms_below(perms, x) as int], codec) is Ok by {
                    if x < k {
                        assert(sections@[x] == before[x]);
                    }
                }
                assert forall|x: int|
                    0 <= x < k + 1 implies if has_perm(perms, x) {
                        spec_decode_tiled(ps[perms_below(perms, x) as int], codec) matches Ok(ts) && (
                        #[trigger] sections@[x])@.map_values(|t: Tile| tile_view(t)) == ts && forall|y: int|
                            0 <= y < sections@[x]@.len() ==> sections@[x]@[y].syn is None
                    } else {
                        sections@[x]@.len() == 0
                    } by {
                    if x < k {
                        assert(sections@[x] == before[x]);
                    }
                }
            }
            j = j + 1;
        } else {
            let ghost before = sections@;
            sections.push(Vec::new());
            proof {
                assert forall|x: int|
                    0 <= x < k + 1 implies if has_perm(perms, x) {
                        spec_decode_tiled(ps[perms_below(perms, x) as int], codec) matches Ok(ts) && (
                        #[trigger] sections@[x])@.map_values(|t: Tile| tile_view(t)) == ts && forall|y: int|
                            0 <= y < sections@[x]@.len() ==> sections@[x]@[y].syn is None
                    } else {
                        sections@[x]@.len() == 0
                    } by {
                    if x < k {
                        assert(sections@[x] == before[x]);
                    }
                }
            }
        }
        k = k + 1;
    }
    let triple_count = count_triples(&sections, perms);
    proof {
        assert(legacy_payloads_ok(ps, perms, codec));
    }
    Ok(GraphIndex { perms, sections, triple_count })
}

/// Number of triples a tile's leading count declares, or zero when it has
/// none.
pub open spec fn tile_count(b: Seq<u8>) -> nat {
    match crate::varint::spec_read_uvarint(b) {
        Some((n, _)) => n as nat,
        None => 0,
    }
}

/// The declared triple counts of a run of tiles, summed.
pub open spec fn tiles_count(ts: Seq<Tile>) -> nat
    decreases ts.len(),
{
    if ts.len() == 0 {
        0
    } else {
        tiles_count(ts.drop_last()) + tile_count(ts.last().bytes@)
    }
}

/// A tile's declared count is the number of triples it holds.
pub proof fn lemma_tile_count_is_content(b: Seq<u8>, ts: Seq<crate::tile::Triple>)
    requires
        crate::index::tile_content(b) == Some(ts),
        ts.len() <= u64::MAX,
    ensures
        tile_count(b) == ts.len(),
{
    crate::varint::lemma_read_write_uvarint(ts.len() as u64, crate::tile::triples_bytes(ts));
}

/// The number of triples a run of tiles holds.
pub open spec fn tiles_triples(ts: Seq<Tile>) -> nat
    decreases ts.len(),
{
    if ts.len() == 0 {
        0
    } else {
        tiles_triples(ts.drop_last()) + match crate::index::tile_content(ts.last().bytes@) {
            Some(x) => x.len(),
            None => 0,
        }
    }
}

/// The count law: summing the tiles' declared counts counts exactly the
/// triples the tiles hold, so an index's triple count is its number of
/// triples, not of tiles.
pub proof fn lemma_tiles_count_is_triples(ts: Seq<Tile>)
    requires
        forall|i: int|
            0 <= i < ts.len() ==> (crate::index::tile_content((#[trigger] ts[i]).bytes@) matches Some(x) && x.len() <= u64::MAX),
    ensures
        tiles_count(ts) == tiles_triples(ts),
    decreases ts.len(),
{
    if ts.len() > 0 {
        lemma_tiles_count_is_triples(ts.drop_last());
        let last = ts[ts.len() - 1];
        let x = crate::index::tile_content(last.bytes@)->0;
        lemma_tile_count_is_content(last.bytes@, x);
    }
}

/// The triple count of a decoded index: the declared counts of the tiles of
/// its first carried slot, saturating at the largest `u64`.
pub fn count_triples(sections: &Vec<Vec<Tile>>, perms: u8) -> (r: u64)
    ensures
        match crate::index::route(perms, (None, None, None)) {
            Some(k) => if k < sections@.len() {
                r == if tiles_count(sections@[k]@) > u64::MAX { u64::MAX as nat } else { tiles_count(sections@[k]@) }
            } else {
                r == 0
            },
            None => r == 0,
        },
{
    let k = match crate::index::route_slot(perms, (None, None, None)) {
        Some(k) => k,
        None => return 0,
    };
    proof {
        crate::index::lemma_route(perms, (None, None, None));
    }
    if k >= sections.len() {
        return 0;
    }
    let tiles = &sections[k];
    let n = tiles.len();
    let mut total: u64 = 0;
    let mut i: usize = 0;
    while i < n
        invariant
            n == tiles@.len(),
            i <= n,
            total == if tiles_count(tiles@.take(i as int)) > u64::MAX { u64::MAX as nat } else { tiles_count(tiles@.take(i as int)) },
        decreases n - i,
    {
        proof {
            assert(tiles@.take(i + 1).drop_last() =~= tiles@.take(i as int));
        }
        let c = match crate::varint::read_uvarint(tiles[i].bytes.as_slice()) {
            Some((c, _)) => c,
            None => 0,
        };
        total = total.saturating_add(c);
        i = i + 1;
    }
    proof {
        assert(tiles@.take(n as int) =~= tiles@);
    }
    total
}

/// `p` is a family payload carrying the sibling tiles `first` and `second`.
pub open spec fn family_payload(p: Seq<u8>, first: Seq<Tile>, second: Seq<Tile>, codec: u8) -> bool {
    exists|f: FamilyFields|
        family_wf(f) && family_wire(f) == p && records_ok(f, codec) && frames_tiles(f, first, second)
}

/// Every family of the index can be encoded.
pub open spec fn index_family_encodable(sections: Seq<Vec<Tile>>, codec: u8) -> bool {
    forall|f: int| 0 <= f < 3 ==> #[trigger] family_encodable(slot_tiles(sections, f), slot_tiles(sections, f + 3), codec)
}

/// Encode an index container of the second generation: the subject,
/// predicate and object families, framed without compression.
pub fn encode_family_index_container(index: &GraphIndex, codec: u8) -> (r: Result<Vec<u8>, FileError>)
    ensures
        index_family_encodable(index.sections@, codec) <==> r is Ok,
        r matches Ok(b) ==> exists|ps: Seq<Seq<u8>>|
            ps.len() == 3 && b@ == container_bytes(ps) && forall|f: int|
                0 <= f < 3 ==> #[trigger] family_payload(ps[f], slot_tiles(index.sections@, f), slot_tiles(index.sections@, f + 3), codec)
                    && ps[f].len() <= usize::MAX,
{
    let empty: Vec<Tile> = Vec::new();
    let mut payloads: Vec<Vec<u8>> = Vec::new();
    let mut f: usize = 0;
    while f < 3
        invariant
            f <= 3,
            empty@.len() == 0,
            payloads@.len() == f,
            forall|x: int| 0 <= x < f ==> #[trigger] family_encodable(slot_tiles(index.sections@, x), slot_tiles(index.sections@, x + 3), codec),
            forall|x: int| 0 <= x < f ==> #[trigger] family_payload(payloads@[x]@, slot_tiles(index.sections@, x), slot_tiles(index.sections@, x + 3), codec),
            forall|x: int| 0 <= x < f ==> #[trigger] payloads@[x]@.len() <= usize::MAX,
        decreases 3 - f,
    {
        let first = if f < index.sections.len() {
            &index.sections[f]
        } else {
            &empty
        };
        let second = if f + 3 < index.sections.len() {
            &index.sections[f + 3]
        } else {
            &empty
        };
        proof {
            assert(first@ == slot_tiles(index.sections@, f as int));
            assert(second@ == slot_tiles(index.sections@, f + 3));
        }
        let p = match encode_family_container(first, second, codec) {
            Ok(p) => p,
            Err(e) => {
                proof {
                    assert(!family_encodable(slot_tiles(index.sections@, f as int), slot_tiles(index.sections@, f + 3), codec));
                }
                return Err(e);
            },
        };
        let plen = p.len();
        let ghost before = payloads@;
        payloads.push(p);
        proof {
            assert(payloads@[f as int]@.len() == plen);
            assert forall|x: int| 0 <= x < f + 1 implies #[trigger] family_payload(payloads@[x]@, slot_tiles(index.sections@, x), slot_tiles(index.sections@, x + 3), codec) by {
                if x < f {
                    assert(payloads@[x] == before[x]);
                }
            }
        }
        f = f + 1;
    }
    let out = encode_container(&payloads, CODEC_NONE);
    proof {
        let ps = payloads@.map_values(|p: Vec<u8>| p@);
        assert forall|x: int| 0 <= x < 3 implies #[trigger] family_payload(ps[x], slot_tiles(index.sections@, x), slot_tiles(index.sections@, x + 3), codec)
            && ps[x].len() <= usize::MAX by {
            assert(ps[x] == payloads@[x]@);
        }
    }
    Ok(out)
}

/// The tiles of sibling `base` (0 or `n`) that a family payload decodes to,
/// as plain values.
pub open spec fn family_tile_views(g: FamilyFields, codec: u8, base: int) -> Seq<(u32, u32, Seq<u8>)> {
    Seq::new(
        g.0,
        |i: int|
            (
                crate::family::fam_min(g.1, i) as u32,
                crate::family::fam_max(g.1, i) as u32,
                crate::family::family_tile(codec, g.2[base + i].1)->0,
            ),
    )
}

/// `idx` holds, in family slot `f` and `f + 3`, the sibling tiles the family
/// payload decodes to.
pub open spec fn family_slots_decoded(idx: GraphIndex, f: int, p: Seq<u8>, codec: u8) -> bool {
    exists|g: FamilyFields|
        family_wf(g) && family_wire(g) == p && records_ok(g, codec) && idx.sections@[f]@.map_values(
            |t: Tile| tile_view(t),
        ) == family_tile_views(g, codec, 0) && idx.sections@[f + 3]@.map_values(|t: Tile| tile_view(t))
            == family_tile_views(g, codec, g.0 as int)
}

/// A decoded family's tiles, as plain values, are those of its framing.
proof fn lemma_decoded_views(out: crate::family::DecodedFamily, g: FamilyFields, codec: u8)
    requires
        family_wf(g),
        decoded_as(out, g, codec),
    ensures
        out.first@.map_values(|t: Tile| tile_view(t)) == family_tile_views(g, codec, 0),
        out.second@.map_values(|t: Tile| tile_view(t)) == family_tile_views(g, codec, g.0 as int),
{
    let n = g.0;
    let v1 = out.first@.map_values(|t: Tile| tile_view(t));
    let v2 = out.second@.map_values(|t: Tile| tile_view(t));
    assert forall|i: int| 0 <= i < n implies #[trigger] v1[i] == family_tile_views(g, codec, 0)[i] by {
        assert(out.directory.ranges@[i] == out.directory.ranges@[i]);
        assert(crate::family::record_decoded(out.first@[i], out.directory.first_prefix2@[i], g, codec, i));
        assert(crate::family::sib(n, i) == i);
    }
    assert forall|i: int| 0 <= i < n implies #[trigger] v2[i] == family_tile_views(g, codec, n as int)[i] by {
        assert(out.directory.ranges@[i] == out.directory.ranges@[i]);
        assert(crate::family::record_decoded(out.second@[i], out.directory.second_prefix2@[i], g, codec, n + i));
        assert(crate::family::sib(n, n + i) == i);
    }
    assert(v1 =~= family_tile_views(g, codec, 0));
    assert(v2 =~= family_tile_views(g, codec, n as int));
}

/// What decoding a second-generation index container gives: the
/// container's error; success whenever every family is valid under a known
/// codec; and on success all six slots filled from the families.
pub open spec fn family_index_result(bytes: Seq<u8>, codec: u8, r: Result<GraphIndex, FileError>) -> bool {
    &&& match spec_decode_container(bytes, CODEC_NONE, 3) {
        Err(e) => r == Err::<GraphIndex, FileError>(e),
        Ok(ps) => ((codec == CODEC_NONE || codec == crate::codec::CODEC_ZSTD) && forall|f: int|
            0 <= f < 3 ==> #[trigger] family_valid(ps[f], codec)) ==> r is Ok,
    }
    &&& r matches Ok(idx) ==> idx.perms == PERMS_ALL && idx.sections@.len() == 6 && family_index_decoded(
        idx,
        bytes,
        codec,
    )
}

/// Decode an index container of the second generation: three family
/// payloads, each fully checked, filling all six slots.
#[verifier::rlimit(50)]
pub fn decode_family_index_container(bytes: &[u8], codec: u8) -> (r: Result<GraphIndex, FileError>)
    ensures
        family_index_result(bytes@, codec, r),
{
    let fams = decode_container(bytes, CODEC_NONE, 3)?;
    proof {
        crate::container::lemma_decode_container_len(bytes@, CODEC_NONE, 3);
    }
    let ghost ps = fams@.map_values(|x: Vec<u8>| x@);
    proof {
        assert(ps[0] == fams@[0]@ && ps[1] == fams@[1]@ && ps[2] == fams@[2]@);
        if (codec == CODEC_NONE || codec == crate::codec::CODEC_ZSTD) && forall|f: int| 0 <= f < 3 ==> #[trigger] family_valid(ps[f], codec) {
            assert(family_valid(ps[0], codec));
            assert(family_valid(ps[1], codec));
            assert(family_valid(ps[2], codec));
        }
    }
    let d0 = decode_family_container(fams[0].as_slice(), codec)?;
    let d1 = decode_family_container(fams[1].as_slice(), codec)?;
    let d2 = decode_family_container(fams[2].as_slice(), codec)?;
    let ghost o0 = d0;
    let ghost o1 = d1;
    let ghost o2 = d2;
    let mut sections: Vec<Vec<Tile>> = Vec::new();
    sections.push(d0.first);
    sections.push(d1.first);
    sections.push(d2.first);
    sections.push(d0.second);
    sections.push(d1.second);
    sections.push(d2.second);
    let triple_count = count_triples(&sections, PERMS_ALL);
    let idx = GraphIndex { perms: PERMS_ALL, sections, triple_count };
    proof {
        assert forall|f: int| 0 <= f < 3 implies #[trigger] family_slots_decoded(idx, f, ps[f], codec) by {
            let o = if f == 0 { o0 } else if f == 1 { o1 } else { o2 };
            assert(ps[f] == fams@[f]@);
            let g = choose|g: FamilyFields| family_wf(g) && family_wire(g) == ps[f] && records_ok(g, codec) && decoded_as(o, g, codec);
            lemma_decoded_views(o, g, codec);
            assert(idx.sections@[f] == o.first);
            assert(idx.sections@[f + 3] == o.second);
        }
    }
    Ok(idx)
}

/// What the second-generation encoder writes for `index`: a container of
/// three family payloads, each carrying its pair of sibling slots.
pub open spec fn family_index_bytes(index: GraphIndex, b: Seq<u8>) -> bool {
    exists|ps: Seq<Seq<u8>>|
        ps.len() == 3 && b == container_bytes(ps) && forall|f: int|
            0 <= f < 3 ==> #[trigger] family_payload(ps[f], slot_tiles(index.sections@, f), slot_tiles(index.sections@, f + 3), CODEC_NONE)
                && ps[f].len() <= usize::MAX
}

/// `idx` holds, in all six slots, what the three family payloads of the
/// container `b` decode to.
pub open spec fn family_index_decoded(idx: GraphIndex, b: Seq<u8>, codec: u8) -> bool {
    match spec_decode_container(b, CODEC_NONE, 3) {
        Ok(ps) => forall|f: int| 0 <= f < 3 ==> #[trigger] family_slots_decoded(idx, f, ps[f], codec),
        Err(_) => false,
    }
}

/// The second-generation index law, acceptance: what the encoder writes,
/// the decoder's container framing gives back, and every family in it is
/// one the decoder accepts.
pub proof fn lemma_index_family_accepted(index: GraphIndex, b: Seq<u8>)
    requires
        family_index_bytes(index, b),
    ensures
        spec_decode_container(b, CODEC_NONE, 3) matches Ok(ps) && ps.len() == 3 && forall|f: int|
            0 <= f < 3 ==> #[trigger] family_valid(ps[f], CODEC_NONE),
{
    let ps = choose|ps: Seq<Seq<u8>>|
        ps.len() == 3 && b == container_bytes(ps) && forall|f: int|
            0 <= f < 3 ==> #[trigger] family_payload(ps[f], slot_tiles(index.sections@, f), slot_tiles(index.sections@, f + 3), CODEC_NONE)
                && ps[f].len() <= usize::MAX;
    assert forall|i: int| 0 <= i < ps.len() implies #[trigger] ps[i].len() <= usize::MAX by {
        assert(family_payload(ps[i], slot_tiles(index.sections@, i), slot_tiles(index.sections@, i + 3), CODEC_NONE));
    }
    crate::container::lemma_container_roundtrip(ps);
    assert forall|f: int| 0 <= f < 3 implies #[trigger] family_valid(ps[f], CODEC_NONE) by {
        assert(family_payload(ps[f], slot_tiles(index.sections@, f), slot_tiles(index.sections@, f + 3), CODEC_NONE));
        let g = choose|g: FamilyFields|
            family_wf(g) && family_wire(g) == ps[f] && records_ok(g, CODEC_NONE) && frames_tiles(
                g,
                slot_tiles(index.sections@, f),
                slot_tiles(index.sections@, f + 3),
            );
        assert(family_wf(g) && family_wire(g) == ps[f] && records_ok(g, CODEC_NONE));
    }
}

/// A family framing that carries `first` and `second` decodes each slot to
/// exactly those tiles, as plain values.
proof fn lemma_family_views(g: FamilyFields, first: Seq<Tile>, second: Seq<Tile>)
    requires
        family_wf(g),
        records_ok(g, CODEC_NONE),
        frames_tiles(g, first, second),
    ensures
        family_tile_views(g, CODEC_NONE, 0) == first.map_values(|t: Tile| tile_view(t)),
        family_tile_views(g, CODEC_NONE, g.0 as int) == second.map_values(|t: Tile| tile_view(t)),
{
    let n = g.0;
    assert forall|i: int| 0 <= i < n implies #[trigger] family_tile_views(g, CODEC_NONE, 0)[i] == tile_view(first[i]) by {
        assert(fam_min(g.1, i) == first[i].min_a);
        assert(record_ok(g, CODEC_NONE, i));
    }
    assert forall|i: int| 0 <= i < n implies #[trigger] family_tile_views(g, CODEC_NONE, n as int)[i] == tile_view(second[i]) by {
        assert(fam_min(g.1, i) == first[i].min_a);
        assert(record_ok(g, CODEC_NONE, n + i));
    }
    assert(family_tile_views(g, CODEC_NONE, 0) =~= first.map_values(|t: Tile| tile_view(t)));
    assert(family_tile_views(g, CODEC_NONE, n as int) =~= second.map_values(|t: Tile| tile_view(t)));
}

/// The second-generation index law, contents: decoding what the encoder
/// wrote for `index` gives back, in each of the six slots, the tiles of
/// `index` with their leading ranges and bytes.
pub proof fn lemma_index_family_roundtrip(index: GraphIndex, b: Seq<u8>, out: GraphIndex)
    requires
        family_index_bytes(index, b),
        out.sections@.len() == 6,
        family_index_decoded(out, b, CODEC_NONE),
    ensures
        forall|k: int|
            0 <= k < 6 ==> (#[trigger] out.sections@[k])@.map_values(|t: Tile| tile_view(t)) == slot_tiles(
                index.sections@,
                k,
            ).map_values(|t: Tile| tile_view(t)),
{
    let ps = choose|ps: Seq<Seq<u8>>|
        ps.len() == 3 && b == container_bytes(ps) && forall|f: int|
            0 <= f < 3 ==> #[trigger] family_payload(ps[f], slot_tiles(index.sections@, f), slot_tiles(index.sections@, f + 3), CODEC_NONE)
                && ps[f].len() <= usize::MAX;
    assert forall|i: int| 0 <= i < ps.len() implies #[trigger] ps[i].len() <= usize::MAX by {
        assert(family_payload(ps[i], slot_tiles(index.sections@, i), slot_tiles(index.sections@, i + 3), CODEC_NONE));
    }
    crate::container::lemma_container_roundtrip(ps);
    assert(spec_decode_container(b, CODEC_NONE, 3) is Ok);
    let qs = spec_decode_container(b, CODEC_NONE, 3)->Ok_0;
    assert(qs == ps);
    assert(forall|f: int| 0 <= f < 3 ==> #[trigger] family_slots_decoded(out, f, qs[f], CODEC_NONE));
    assert forall|k: int| 0 <= k < 6 implies (#[trigger] out.sections@[k])@.map_values(|t: Tile| tile_view(t))
        == slot_tiles(index.sections@, k).map_values(|t: Tile| tile_view(t)) by {
        let f = if k < 3 { k } else { k - 3 };
        let first = slot_tiles(index.sections@, f);
        let second = slot_tiles(index.sections@, f + 3);
        assert(family_payload(ps[f], first, second, CODEC_NONE));
        assert(family_slots_decoded(out, f, ps[f], CODEC_NONE));
        let a = choose|a: FamilyFields|
            family_wf(a) && family_wire(a) == ps[f] && records_ok(a, CODEC_NONE) && frames_tiles(a, first, second);
        let g = choose|g: FamilyFields|
            family_wf(g) && family_wire(g) == ps[f] && records_ok(g, CODEC_NONE) && out.sections@[f]@.map_values(
                |t: Tile| tile_view(t),
            ) == family_tile_views(g, CODEC_NONE, 0) && out.sections@[f + 3]@.map_values(|t: Tile| tile_view(t))
                == family_tile_views(g, CODEC_NONE, g.0 as int);
        crate::family::lemma_wire_unique(a, g);
        lemma_family_views(g, first, second);
    }
}

/// Decode the index container of a file of format `version`: one tiled
/// section per carried permutation in the first generation, three paired
/// families (which need all six permutations) in the second.
pub fn decode_index_for_version(bytes: &[u8], codec: u8, perms: u8, version: u8) -> (r: Result<GraphIndex, FileError>)
    ensures
        version == LEGACY_FORMAT_VERSION ==> legacy_index_result(bytes@, codec, perms, r),
        version == NEXT_FORMAT_VERSION && perms == PERMS_ALL ==> family_index_result(bytes@, codec, r),
        version == NEXT_FORMAT_VERSION && perms != PERMS_ALL ==> r == Err::<GraphIndex, FileError>(
            FileError::Container("paired-family generation requires all six logical permutations"),
        ),
        version != LEGACY_FORMAT_VERSION && version != NEXT_FORMAT_VERSION ==> r == Err::<GraphIndex, FileError>(
            FileError::Container("unsupported index generation"),
        ),
{
    if version == LEGACY_FORMAT_VERSION {
        decode_index_container(bytes, codec, perms)
    } else if version == NEXT_FORMAT_VERSION {
        if perms == PERMS_ALL {
            decode_family_index_container(bytes, codec)
        } else {
            Err(FileError::Container("paired-family generation requires all six logical permutations"))
        }
    } else {
        Err(FileError::Container("unsupported index generation"))
    }
}

/// The range an absent slot gets.
pub open spec fn zero_range() -> ByteRange {
    ByteRange { offset: 0, len: 0 }
}

/// The payload range of each slot in a first-generation container: the
/// carried slots take the sections in order, the others an empty range.
pub open spec fn legacy_slot_ranges(rs: Seq<ByteRange>, perms: u8) -> Seq<ByteRange> {
    Seq::new(6, |k: int| if has_perm(perms, k) { rs[perms_below(perms, k) as int] } else { zero_range() })
}

/// The payload range of each slot in a second-generation container: both
/// slots of a family share its payload.
pub open spec fn family_slot_ranges(rs: Seq<ByteRange>) -> Seq<ByteRange> {
    Seq::new(6, |k: int| if k < 3 { rs[k] } else { rs[k - 3] })
}

/// The absolute payload range of every permutation slot of a
/// first-generation index container.
pub fn decode_index_section_ranges(bytes: &[u8], container_offset: u64, perms: u8) -> (r: Result<Vec<ByteRange>, FileError>)
    ensures
        match spec_container_ranges(bytes@, container_offset, perm_count(perms)) {
            Err(e) => r == Err::<Vec<ByteRange>, FileError>(e),
            Ok(rs) => r matches Ok(v) && v@ == legacy_slot_ranges(rs, perms),
        },
{
    let count = perms_len(perms);
    let ranges = container_section_payload_ranges(bytes, container_offset, count)?;
    let ghost rs = ranges@;
    proof {
        lemma_perms_below(perms, 6);
    }
    let mut out: Vec<ByteRange> = Vec::new();
    let mut j: usize = 0;
    let mut k: usize = 0;
    while k < 6
        invariant
            k <= 6,
            rs == ranges@,
            spec_container_ranges(bytes@, container_offset, perm_count(perms)) == Ok::<Seq<ByteRange>, FileError>(rs),
            j == perms_below(perms, k as int),
            out@ == legacy_slot_ranges(rs, perms).take(k as int),
        decreases 6 - k,
    {
        proof {
            lemma_perms_below(perms, k as int);
            lemma_perms_below(perms, 6);
            crate::container::lemma_container_ranges_len(bytes@, container_offset, perm_count(perms));
        }
        if perm_present(perms, k) {
            out.push(ranges[j]);
            j = j + 1;
        } else {
            out.push(ByteRange { offset: 0, len: 0 });
        }
        proof {
            assert(out@ =~= legacy_slot_ranges(rs, perms).take(k + 1));
        }
        k = k + 1;
    }
    proof {
        assert(legacy_slot_ranges(rs, perms).take(6) =~= legacy_slot_ranges(rs, perms));
    }
    Ok(out)
}

/// The absolute payload range of every permutation slot of the index
/// container of a file of format `version`.
pub fn decode_index_section_ranges_for_version(bytes: &[u8], container_offset: u64, perms: u8, version: u8) -> (r: Result<
    Vec<ByteRange>,
    FileError,
>)
    ensures
        version == LEGACY_FORMAT_VERSION ==> match spec_container_ranges(bytes@, container_offset, perm_count(perms)) {
            Err(e) => r == Err::<Vec<ByteRange>, FileError>(e),
            Ok(rs) => r matches Ok(v) && v@ == legacy_slot_ranges(rs, perms),
        },
        version != LEGACY_FORMAT_VERSION ==> match spec_container_ranges(bytes@, container_offset, 3) {
            Err(e) => r == Err::<Vec<ByteRange>, FileError>(e),
            Ok(rs) => r matches Ok(v) && v@ == family_slot_ranges(rs),
        },
{
    if version == LEGACY_FORMAT_VERSION {
        return decode_index_section_ranges(bytes, container_offset, perms);
    }
    let ranges = container_section_payload_ranges(bytes, container_offset, 3)?;
    proof {
        crate::container::lemma_container_ranges_len(bytes@, container_offset, 3);
    }
    let mut out: Vec<ByteRange> = Vec::new();
    out.push(ranges[0]);
    out.push(ranges[1]);
    out.push(ranges[2]);
    out.push(ranges[0]);
    out.push(ranges[1]);
    out.push(ranges[2]);
    proof {
        assert(out@ =~= family_slot_ranges(ranges@));
    }
    Ok(out)
}

/// A section's directory entries as absolute file ranges, the section
/// starting at `offset`.
pub open spec fn entries_in_file(es: Seq<TileDirEntry>, offset: u64) -> Seq<(u32, u32, ByteRange)> {
    es.map_values(
        |e: TileDirEntry| (e.min_a, e.max_a, ByteRange { offset: (offset + e.start) as u64, len: (e.end - e.start) as u64 }),
    )
}

/// The tile file ranges provenance records for one permutation section: none
/// when the section is absent, lies outside the container or has a malformed
/// directory.
pub open spec fn section_tile_ranges(index_bytes: Seq<u8>, container_offset: u64, range: ByteRange) -> Seq<
    (u32, u32, ByteRange),
> {
    if range.len == 0 || range.offset < container_offset || range.offset + range.len > u64::MAX {
        seq![]
    } else {
        let start = range.offset - container_offset;
        if start + range.len > index_bytes.len() {
            seq![]
        } else {
            match spec_tile_directory(index_bytes.subrange(start, start + range.len), range.len) {
                Ok(es) => entries_in_file(es, range.offset),
                Err(_) => seq![],
            }
        }
    }
}

/// Per-tile absolute file ranges of each permutation section, for
/// provenance. A section that is absent or malformed gets none; queries do
/// not depend on them.
pub fn tile_file_ranges(index_bytes: &[u8], container_offset: u64, section_ranges: &Vec<ByteRange>) -> (r: Vec<
    Vec<(u32, u32, ByteRange)>,
>)
    requires
        section_ranges@.len() == NUM_PERMS,
    ensures
        r@.len() == NUM_PERMS,
        forall|k: int| 0 <= k < NUM_PERMS ==> (#[trigger] r@[k])@ == section_tile_ranges(index_bytes@, container_offset, section_ranges@[k]),
{
    let mut out: Vec<Vec<(u32, u32, ByteRange)>> = Vec::new();
    let blen = index_bytes.len();
    let mut k: usize = 0;
    while k < 6
        invariant
            k <= 6,
            section_ranges@.len() == NUM_PERMS,
            blen == index_bytes@.len(),
            out@.len() == k,
            forall|x: int| 0 <= x < k ==> (#[trigger] out@[x])@ == section_tile_ranges(index_bytes@, container_offset, section_ranges@[x]),
        decreases 6 - k,
    {
        let range = section_ranges[k];
        let mut section: Vec<(u32, u32, ByteRange)> = Vec::new();
        if range.len != 0 && range.offset >= container_offset && range.len <= u64::MAX - range.offset {
            let rel = range.offset - container_offset;
            if rel <= blen as u64 && range.len <= blen as u64 - rel {
                let start = rel as usize;
                let end = start + range.len as usize;
                let payload = vstd::slice::slice_subrange(index_bytes, start, end);
                if let Ok(dir) = parse_tile_directory(payload, range.len) {
                    proof {
                        crate::tiled::lemma_tile_directory_bounds(payload@, range.len);
                    }
                    let m = dir.len();
                    let mut i: usize = 0;
                    while i < m
                        invariant
                            m == dir@.len(),
                            i <= m,
                            range.offset + range.len <= u64::MAX,
                            forall|y: int| 0 <= y < m ==> (#[trigger] dir@[y]).start <= dir@[y].end <= range.len,
                            section@ == entries_in_file(dir@, range.offset).take(i as int),
                        decreases m - i,
                    {
                        let e = dir[i];
                        section.push((e.min_a, e.max_a, ByteRange { offset: range.offset + e.start, len: e.end - e.start }));
                        proof {
                            assert(section@ =~= entries_in_file(dir@, range.offset).take(i + 1));
                        }
                        i = i + 1;
                    }
                    proof {
                        assert(entries_in_file(dir@, range.offset).take(m as int) =~= entries_in_file(dir@, range.offset));
                    }
                }
            }
        }
        let ghost before = out@;
        out.push(section);
        proof {
            assert forall|x: int| 0 <= x < k + 1 implies (#[trigger] out@[x])@ == section_tile_ranges(index_bytes@, container_offset, section_ranges@[x]) by {
                if x < k {
                    assert(out@[x] == before[x]);
                }
            }
        }
        k = k + 1;
    }
    out
}

/// The head of a family payload as provenance reads it: the tile count,
/// the directory's fields (exactly eight per tile), the trailer length and
/// where the records start.
pub open spec fn family_head(p: Seq<u8>) -> Option<(nat, Seq<u64>, u64, int)> {
    match spec_read_canonical(p) {
        None => None,
        Some((n, a)) => match spec_read_canonical(p.skip(a as int)) {
            None => None,
            Some((dl, b)) => match spec_read_canonical(p.skip((a + b) as int)) {
                None => None,
                Some((tl, c)) => {
                    let s = a + b + c;
                    if s + dl > p.len() {
                        None
                    } else {
                        match canonical_split(p.subrange(s as int, s + dl)) {
                            Some(d) => if d.len() == 8 * n {
                                Some((n as nat, d, tl, s + dl))
                            } else {
                                None
                            },
                            None => None,
                        }
                    }
                },
            },
        },
    }
}

/// Whether the records of a family stored at `physical`, whose records start
/// `start` bytes in, can be laid out: every leading range fits a `u32`, every
/// record's file offset fits a `u64`, and the records and trailer fill the
/// payload exactly.
pub open spec fn family_layout_ok(n: nat, d: Seq<u64>, tl: u64, start: int, physical: ByteRange) -> bool {
    &&& forall|i: int| 0 <= i < n ==> #[trigger] fam_max(d, i) <= u32::MAX
    &&& physical.offset + start + records_total(d, n, (2 * n) as int) <= u64::MAX
    &&& start + records_total(d, n, (2 * n) as int) + tl == physical.len
}

/// The file ranges of the records of one sibling (`base` 0 or `n`), each
/// with its tile's leading range.
pub open spec fn sibling_file_ranges(n: nat, d: Seq<u64>, start: int, physical: ByteRange, base: int) -> Seq<
    (u32, u32, ByteRange),
> {
    Seq::new(
        n,
        |i: int|
            (
                fam_min(d, i) as u32,
                fam_max(d, i) as u32,
                ByteRange {
                    offset: (physical.offset + start + records_total(d, n, base + i)) as u64,
                    len: (entry_at(d, n, base + i, 1) + entry_at(d, n, base + i, 2)) as u64,
                },
            ),
    )
}

/// The record file ranges of both siblings of the family payload `p` stored
/// at `physical`, when its head parses and its records can be laid out.
pub open spec fn family_ranges_in(p: Seq<u8>, physical: ByteRange) -> Option<
    (Seq<(u32, u32, ByteRange)>, Seq<(u32, u32, ByteRange)>),
> {
    match family_head(p) {
        None => None,
        Some((n, d, tl, start)) => if family_layout_ok(n, d, tl, start, physical) {
            Some((sibling_file_ranges(n, d, start, physical, 0), sibling_file_ranges(n, d, start, physical, n as int)))
        } else {
            None
        },
    }
}

/// The bytes of a family payload within its container, when its range lies
/// there.
pub open spec fn family_payload_in(bytes: Seq<u8>, container_offset: u64, physical: ByteRange) -> Option<Seq<u8>> {
    if physical.offset < container_offset {
        None
    } else {
        let rel = physical.offset - container_offset;
        if rel + physical.len > bytes.len() {
            None
        } else {
            Some(bytes.subrange(rel, rel + physical.len))
        }
    }
}

/// The record file ranges of the family stored at `physical` within the
/// container `bytes`.
pub open spec fn family_file_ranges_of(bytes: Seq<u8>, container_offset: u64, physical: ByteRange) -> Option<
    (Seq<(u32, u32, ByteRange)>, Seq<(u32, u32, ByteRange)>),
> {
    match family_payload_in(bytes, container_offset, physical) {
        Some(p) => family_ranges_in(p, physical),
        None => None,
    }
}

/// Record lengths are never negative, so the running totals only grow.
pub proof fn lemma_records_total_mono(d: Seq<u64>, n: nat, j: int, k: int)
    requires
        j <= k,
    ensures
        records_total(d, n, j) <= records_total(d, n, k),
    decreases k - j,
{
    if j < k {
        lemma_records_total_mono(d, n, j, k - 1);
    }
}

/// The tile count and directory of a family payload, and where its records
/// start, exactly when its head parses.
fn parse_family_head(payload: &[u8]) -> (r: Result<(usize, Vec<u64>, u64, usize), FileError>)
    ensures
        match family_head(payload@) {
            Some((n, d, tl, start)) => r matches Ok((m, dv, t, st)) && m == n && dv@ == d && t == tl && st == start,
            None => r matches Err(FileError::Container(_)),
        },
{
    proof {
        assert(payload@.skip(0) =~= payload@);
    }
    let mut pos: usize = 0;
    let count = family_varint(payload, &mut pos, "truncated family tile count")?;
    let ghost a = pos;
    let dir_len = family_varint(payload, &mut pos, "truncated family directory length")?;
    let ghost b = pos;
    let trailer_len = family_varint(payload, &mut pos, "truncated family trailer length")?;
    let ghost c = pos;
    proof {
        assert(spec_read_canonical(payload@) == Some((count, a as nat)));
    }
    let directory = family_bytes(payload, &mut pos, dir_len, "truncated family directory")?;
    let d = match split_canonicals(directory) {
        Some(d) => d,
        None => return Err(FileError::Container("malformed family directory")),
    };
    if d.len() % 8 != 0 || (d.len() / 8) as u64 != count {
        return Err(FileError::Container("family directory disagrees with tile count"));
    }
    Ok((d.len() / 8, d, trailer_len, pos))
}

/// The file ranges of the records of one family payload stored at
/// `physical`, each with its tile's leading range.
#[verifier::rlimit(50)]
fn family_record_ranges(payload: &[u8], physical: ByteRange) -> (r: Result<
    (Vec<(u32, u32, ByteRange)>, Vec<(u32, u32, ByteRange)>),
    FileError,
>)
    ensures
        match family_ranges_in(payload@, physical) {
            Some((a, b)) => r matches Ok((x, y)) && x@ == a && y@ == b,
            None => r matches Err(FileError::Container(_)),
        },
{
    let (n, d, trailer_len, start) = parse_family_head(payload)?;
    let ghost dd = d@;
    let ghost nn = n as nat;
    let dlen = d.len();
    proof {
        assert(family_head(payload@) == Some((nn, dd, trailer_len, start as int)));
    }
    let ghost ok = family_layout_ok(nn, dd, trailer_len, start as int, physical);
    let mut ranges: Vec<(u32, u32)> = Vec::new();
    let mut prev: u32 = 0;
    let mut i: usize = 0;
    while i < n
        invariant
            d@.len() == 8 * n,
            dlen == d@.len(),
            dd == d@,
            nn == n,
            family_head(payload@) == Some((nn, dd, trailer_len, start as int)),
            i <= n,
            ranges@.len() == i,
            prev == fam_min(dd, i - 1),
            forall|j: int| 0 <= j < i ==> #[trigger] fam_max(dd, j) <= u32::MAX && ranges@[j] == (
                fam_min(dd, j) as u32,
                fam_max(dd, j) as u32,
            ),
        decreases n - i,
    {
        proof {
            crate::family::lemma_fam_min_nonneg(dd, i as int);
        }
        let delta = d[2 * i];
        let span = d[2 * i + 1];
        if delta > (0xffff_ffffu32 - prev) as u64 {
            proof {
                assert(fam_max(dd, i as int) > u32::MAX);
                assert(!family_layout_ok(nn, dd, trailer_len, start as int, physical));
            }
            return Err(FileError::Container("family minimum overflows u32"));
        }
        let min_a = prev + delta as u32;
        if span > (0xffff_ffffu32 - min_a) as u64 {
            proof {
                assert(!family_layout_ok(nn, dd, trailer_len, start as int, physical));
            }
            return Err(FileError::Container("family maximum overflows u32"));
        }
        let max_a = min_a + span as u32;
        ranges.push((min_a, max_a));
        prev = min_a;
        i = i + 1;
    }
    if start as u64 > u64::MAX - physical.offset {
        proof {
            lemma_records_total_mono(dd, nn, 0, (2 * nn) as int);
        }
        return Err(FileError::Container("section range overflows"));
    }
    let base: u64 = physical.offset + start as u64;
    let mut cursor: u64 = base;
    let mut first: Vec<(u32, u32, ByteRange)> = Vec::new();
    let mut second: Vec<(u32, u32, ByteRange)> = Vec::new();
    let mut k: usize = 0;
    while k < 2 * n
        invariant
            d@.len() == 8 * n,
            dlen == d@.len(),
            dd == d@,
            nn == n,
            family_head(payload@) == Some((nn, dd, trailer_len, start as int)),
            ranges@.len() == n,
            forall|j: int| 0 <= j < n ==> #[trigger] fam_max(dd, j) <= u32::MAX && ranges@[j] == (
                fam_min(dd, j) as u32,
                fam_max(dd, j) as u32,
            ),
            k <= 2 * n,
            base == physical.offset + start,
            cursor == base + records_total(dd, nn, k as int),
            k <= n ==> first@ == sibling_file_ranges(nn, dd, start as int, physical, 0).take(k as int) && second@.len() == 0,
            k > n ==> first@ == sibling_file_ranges(nn, dd, start as int, physical, 0) && second@
                == sibling_file_ranges(nn, dd, start as int, physical, nn as int).take(k - n),
        decreases 2 * n - k,
    {
        let at = 2 * n + 3 * k;
        let compressed = d[at + 1];
        let prefix = d[at + 2];
        if compressed > u64::MAX - prefix || compressed + prefix > u64::MAX - cursor {
            proof {
                lemma_records_total_mono(dd, nn, k + 1, (2 * nn) as int);
            }
            return Err(FileError::Container("section range overflows"));
        }
        let len = prefix + compressed;
        let sib_i = if k < n { k } else { k - n };
        let (lo, hi) = ranges[sib_i];
        let entry = (lo, hi, ByteRange { offset: cursor, len });
        if k < n {
            first.push(entry);
            proof {
                assert(first@ =~= sibling_file_ranges(nn, dd, start as int, physical, 0).take(k + 1));
            }
        } else {
            second.push(entry);
            proof {
                assert(second@ =~= sibling_file_ranges(nn, dd, start as int, physical, nn as int).take(k + 1 - n));
            }
        }
        proof {
            if k + 1 == n {
                assert(sibling_file_ranges(nn, dd, start as int, physical, 0).take(n as int) =~= sibling_file_ranges(nn, dd, start as int, physical, 0));
            }
        }
        cursor = cursor + len;
        k = k + 1;
    }
    proof {
        if n == 0 {
            assert(first@ =~= sibling_file_ranges(nn, dd, start as int, physical, 0));
        }
        assert(second@ =~= sibling_file_ranges(nn, dd, start as int, physical, nn as int)) by {
            if n > 0 {
                assert(sibling_file_ranges(nn, dd, start as int, physical, nn as int).take(n as int) =~= sibling_file_ranges(nn, dd, start as int, physical, nn as int));
            }
        }
    }
    proof {
        lemma_records_total_mono(dd, nn, 0, (2 * nn) as int);
    }
    let records_end = cursor - physical.offset;
    if trailer_len > u64::MAX - records_end {
        return Err(FileError::Container("section range overflows"));
    }
    if records_end + trailer_len != physical.len {
        return Err(FileError::Container("family record lengths disagree with framing"));
    }
    Ok((first, second))
}

/// The record file ranges of a family stored at `physical` within the
/// container `bytes`, which starts at `container_offset` of the file.
fn family_file_ranges(bytes: &[u8], container_offset: u64, physical: ByteRange) -> (r: Result<
    (Vec<(u32, u32, ByteRange)>, Vec<(u32, u32, ByteRange)>),
    FileError,
>)
    ensures
        match family_file_ranges_of(bytes@, container_offset, physical) {
            Some((a, b)) => r matches Ok((x, y)) && x@ == a && y@ == b,
            None => r matches Err(FileError::Container(_)),
        },
{
    if physical.offset < container_offset {
        return Err(FileError::Container("family range precedes root"));
    }
    let rel = physical.offset - container_offset;
    let blen = bytes.len();
    if rel > blen as u64 || physical.len > blen as u64 - rel {
        return Err(FileError::Container("family range overruns root"));
    }
    let start = rel as usize;
    let end = start + physical.len as usize;
    let payload = vstd::slice::slice_subrange(bytes, start, end);
    family_record_ranges(payload, physical)
}

/// Per-tile absolute file ranges of each permutation slot of a
/// second-generation index container, read from the families' directories
/// alone: both siblings of a family, each tile with its leading range.
#[verifier::rlimit(50)]
#[verifier::spinoff_prover]
pub fn family_tile_file_ranges(bytes: &[u8], container_offset: u64) -> (r: Result<
    Vec<Vec<(u32, u32, ByteRange)>>,
    FileError,
>)
    ensures
        match spec_container_ranges(bytes@, container_offset, 3) {
            Err(e) => r == Err::<Vec<Vec<(u32, u32, ByteRange)>>, FileError>(e),
            Ok(rs) => ((forall|f: int| 0 <= f < 3 ==> #[trigger] family_file_ranges_of(bytes@, container_offset, rs[f]) is Some)
                <==> r is Ok) && (r matches Ok(v) ==> v@.len() == NUM_PERMS && forall|k: int|
                0 <= k < NUM_PERMS ==> (#[trigger] v@[k])@ == if k < 3 {
                    (family_file_ranges_of(bytes@, container_offset, rs[k])->0).0
                } else {
                    (family_file_ranges_of(bytes@, container_offset, rs[k - 3])->0).1
                }),
        },
        r matches Err(e) ==> e is Container,
{
    proof {
        crate::container::lemma_container_ranges_len(bytes@, container_offset, 3);
        crate::container::lemma_container_ranges_error(bytes@, container_offset, 3);
    }
    let ranges = container_section_payload_ranges(bytes, container_offset, 3)?;
    let ghost rs = ranges@;
    let (a0, b0) = family_file_ranges(bytes, container_offset, ranges[0])?;
    let (a1, b1) = family_file_ranges(bytes, container_offset, ranges[1])?;
    let (a2, b2) = family_file_ranges(bytes, container_offset, ranges[2])?;
    let mut out: Vec<Vec<(u32, u32, ByteRange)>> = Vec::new();
    out.push(a0);
    out.push(a1);
    out.push(a2);
    out.push(b0);
    out.push(b1);
    out.push(b2);
    proof {
        assert(family_file_ranges_of(bytes@, container_offset, rs[0]) is Some);
        assert(family_file_ranges_of(bytes@, container_offset, rs[1]) is Some);
        assert(family_file_ranges_of(bytes@, container_offset, rs[2]) is Some);
    }
    Ok(out)
}

/// What the second-generation encoder wrote for an index it accepts is its
/// family container.
pub proof fn lemma_encoded_family_index(index: GraphIndex, b: Seq<u8>, codec: u8)
    requires
        index_family_encodable(index.sections@, codec),
        exists|ps: Seq<Seq<u8>>|
            ps.len() == 3 && b == container_bytes(ps) && forall|f: int|
                0 <= f < 3 ==> #[trigger] family_payload(ps[f], slot_tiles(index.sections@, f), slot_tiles(index.sections@, f + 3), codec)
                    && ps[f].len() <= usize::MAX,
    ensures
        family_index_bytes(index, b),
{
    let ps = choose|ps: Seq<Seq<u8>>|
        ps.len() == 3 && b == container_bytes(ps) && forall|f: int|
            0 <= f < 3 ==> #[trigger] family_payload(ps[f], slot_tiles(index.sections@, f), slot_tiles(index.sections@, f + 3), codec)
                && ps[f].len() <= usize::MAX;
    assert forall|f: int| 0 <= f < 3 implies #[trigger] family_payload(ps[f], slot_tiles(index.sections@, f), slot_tiles(index.sections@, f + 3), CODEC_NONE)
        && ps[f].len() <= usize::MAX by {
        assert(family_payload(ps[f], slot_tiles(index.sections@, f), slot_tiles(index.sections@, f + 3), codec));
        assert(family_encodable(slot_tiles(index.sections@, f), slot_tiles(index.sections@, f + 3), codec));
        let g = choose|g: FamilyFields|
            family_wf(g) && family_wire(g) == ps[f] && records_ok(g, codec) && frames_tiles(
                g,
                slot_tiles(index.sections@, f),
                slot_tiles(index.sections@, f + 3),
            );
        assert(records_ok(g, CODEC_NONE));
    }
}

} // verus!
