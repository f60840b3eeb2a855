//! The tiled-section law: a run of tiles laid out as a tiled section
//! decodes, stored as written, to the same tiles.
use vstd::prelude::*;

use crate::codec::{FileError, CODEC_NONE};
use crate::index::{has_perm, perm_count, perms_below, GraphIndex, Tile};
use crate::indexfile::{legacy_index_result, lemma_perms_below, perm_payloads, slot_tiles, tile_view};
use crate::writer::legacy_container;
use crate::tiled::{
    decode_tiles, dir_bytes, dir_rec_bytes, dir_records, dir_ranges, payload_bytes, prev_min, spec_decode_tiled,
    spec_tile_directory, tiled_section_bytes, trailer_bytes, wrap32, TileDirEntry,
};
use crate::varint::{spec_read_uvarint, uvarint_bytes};

verus! {

/// A 32-bit wrapping difference, added back with wrapping, gives the
/// value it was taken from.
pub proof fn lemma_wrap32_undo(a: u32, b: u32)
    ensures
        wrap32(wrap32(b - a) as int) == wrap32(b - a),
        wrap32(a + (wrap32(b - a) as u32)) == b,
{
    let m: int = 0x1_0000_0000;
    if b >= a {
        assert((b - a) % m == b - a);
    } else {
        assert((b - a) % m == b - a + m) by {
            assert(b - a + m >= 0);
            assert(b - a + m < m);
        }
        assert((a + (b - a + m)) % m == b) by {
            assert(a + (b - a + m) == b + m);
        }
    }
}

/// Three varints, wherever they stand in `s`, read back one after another.
pub proof fn lemma_read_three(s: Seq<u8>, pos: int, x: u64, y: u64, z: u64)
    requires
        0 <= pos,
        pos + (uvarint_bytes(x as nat) + uvarint_bytes(y as nat) + uvarint_bytes(z as nat)).len() <= s.len(),
        s.subrange(pos, pos + (uvarint_bytes(x as nat) + uvarint_bytes(y as nat) + uvarint_bytes(z as nat)).len())
            == uvarint_bytes(x as nat) + uvarint_bytes(y as nat) + uvarint_bytes(z as nat),
    ensures
        spec_read_uvarint(s.skip(pos)) == Some((x, uvarint_bytes(x as nat).len())),
        spec_read_uvarint(s.skip(pos + uvarint_bytes(x as nat).len())) == Some((y, uvarint_bytes(y as nat).len())),
        spec_read_uvarint(s.skip(pos + uvarint_bytes(x as nat).len() + uvarint_bytes(y as nat).len())) == Some(
            (z, uvarint_bytes(z as nat).len()),
        ),
{
    let u1 = uvarint_bytes(x as nat);
    let u2 = uvarint_bytes(y as nat);
    let u3 = uvarint_bytes(z as nat);
    let e = u1 + u2 + u3;
    let q = pos + e.len();
    let tail = s.skip(q);
    assert(s.skip(pos) =~= e + tail) by {
        assert forall|i: int| 0 <= i < s.skip(pos).len() implies s.skip(pos)[i] == (e + tail)[i] by {
            if i < e.len() {
                assert(s.subrange(pos, q)[i] == s[pos + i]);
            }
        }
    }
    crate::varint::lemma_read_write_uvarint(x, u2 + u3 + tail);
    assert(s.skip(pos) =~= u1 + (u2 + u3 + tail));
    assert(s.skip(pos + u1.len()) =~= u2 + (u3 + tail)) by {
        assert(s.skip(pos + u1.len()) =~= (e + tail).skip(u1.len() as int));
    }
    crate::varint::lemma_read_write_uvarint(y, u3 + tail);
    assert(s.skip(pos + u1.len() + u2.len()) =~= u3 + tail) by {
        assert(s.skip(pos + u1.len() + u2.len()) =~= (e + tail).skip((u1.len() + u2.len()) as int));
    }
    crate::varint::lemma_read_write_uvarint(z, tail);
}

/// The records of the first `i` tiles are a prefix of those of the first
/// `j`.
pub proof fn lemma_dir_bytes_prefix(tiles: Seq<Tile>, i: int, j: int)
    requires
        0 <= i <= j,
    ensures
        dir_bytes(tiles, i).len() <= dir_bytes(tiles, j).len(),
        dir_bytes(tiles, j).subrange(0, dir_bytes(tiles, i).len() as int) == dir_bytes(tiles, i),
    decreases j - i,
{
    if i < j {
        lemma_dir_bytes_prefix(tiles, i, j - 1);
        let a = dir_bytes(tiles, j - 1);
        assert(dir_bytes(tiles, j) == a + dir_rec_bytes(tiles, j - 1));
        assert(dir_bytes(tiles, j).subrange(0, dir_bytes(tiles, i).len() as int) =~= a.subrange(
            0,
            dir_bytes(tiles, i).len() as int,
        ));
    } else {
        assert(dir_bytes(tiles, j).subrange(0, dir_bytes(tiles, j).len() as int) =~= dir_bytes(tiles, j));
    }
}

/// The payloads of the first `i` tiles are a prefix of those of the first
/// `j`.
pub proof fn lemma_payload_bytes_prefix(tiles: Seq<Tile>, i: int, j: int)
    requires
        0 <= i <= j,
    ensures
        payload_bytes(tiles, i).len() <= payload_bytes(tiles, j).len(),
        payload_bytes(tiles, j).subrange(0, payload_bytes(tiles, i).len() as int) == payload_bytes(tiles, i),
    decreases j - i,
{
    if i < j {
        lemma_payload_bytes_prefix(tiles, i, j - 1);
        let a = payload_bytes(tiles, j - 1);
        assert(payload_bytes(tiles, j) == a + tiles[j - 1].bytes@);
        assert(payload_bytes(tiles, j).subrange(0, payload_bytes(tiles, i).len() as int) =~= a.subrange(
            0,
            payload_bytes(tiles, i).len() as int,
        ));
    } else {
        assert(payload_bytes(tiles, j).subrange(0, payload_bytes(tiles, j).len() as int) =~= payload_bytes(tiles, j));
    }
}

/// What the directory record of tile `i` reads back as: its leading range
/// and stored length.
pub open spec fn tile_rec(tiles: Seq<Tile>, i: int) -> (u32, u32, u64) {
    (tiles[i].min_a, tiles[i].max_a, tiles[i].bytes@.len() as u64)
}

/// The directory records, wherever they stand in `s`, read back from
/// record `i` on.
#[verifier::rlimit(50)]
#[verifier::spinoff_prover]
pub proof fn lemma_dir_records(s: Seq<u8>, base: int, tiles: Seq<Tile>, i: int)
    requires
        0 <= i <= tiles.len(),
        0 <= base,
        forall|j: int| 0 <= j < tiles.len() ==> (#[trigger] tiles[j]).bytes@.len() <= u64::MAX,
        base + dir_bytes(tiles, tiles.len() as int).len() <= s.len(),
        s.subrange(base, base + dir_bytes(tiles, tiles.len() as int).len()) == dir_bytes(tiles, tiles.len() as int),
    ensures
        dir_records(s, (base + dir_bytes(tiles, i).len()) as nat, (tiles.len() - i) as nat, prev_min(tiles, i)) == Some(
            (
                Seq::new((tiles.len() - i) as nat, |x: int| tile_rec(tiles, i + x)),
                (base + dir_bytes(tiles, tiles.len() as int).len()) as nat,
            ),
        ),
    decreases tiles.len() - i,
{
    let n = tiles.len() as int;
    let d = dir_bytes(tiles, n);
    let pos = base + dir_bytes(tiles, i).len();
    if i == n {
        assert(Seq::new((tiles.len() - i) as nat, |x: int| tile_rec(tiles, i + x)) =~= Seq::<(u32, u32, u64)>::empty());
    } else {
        let t = tiles[i];
        let prev = prev_min(tiles, i);
        let dmin = wrap32(t.min_a - prev);
        let span = wrap32(t.max_a - t.min_a);
        let len = t.bytes@.len() as u64;
        let e = dir_rec_bytes(tiles, i);
        assert(e == uvarint_bytes(dmin as u64 as nat) + uvarint_bytes(span as u64 as nat) + uvarint_bytes(len as nat));
        lemma_dir_bytes_prefix(tiles, i + 1, n);
        let d0 = dir_bytes(tiles, i);
        let d1 = dir_bytes(tiles, i + 1);
        assert(d1 == d0 + e);
        assert(s.subrange(pos, pos + e.len()) =~= e) by {
            assert forall|x: int| 0 <= x < e.len() implies s.subrange(pos, pos + e.len())[x] == e[x] by {
                assert(s.subrange(base, base + d.len())[d0.len() + x] == s[pos + x]);
                assert(d.subrange(0, d1.len() as int)[d0.len() + x] == d1[d0.len() + x]);
            }
        }
        lemma_read_three(s, pos, dmin as u64, span as u64, len);
        lemma_wrap32_undo(prev, t.min_a);
        lemma_wrap32_undo(t.min_a, t.max_a);
        assert(prev_min(tiles, i + 1) == t.min_a);
        lemma_dir_records(s, base, tiles, i + 1);
        let rest = Seq::new((tiles.len() - i - 1) as nat, |x: int| tile_rec(tiles, i + 1 + x));
        assert(seq![tile_rec(tiles, i)] + rest =~= Seq::new(
            (tiles.len() - i) as nat,
            |x: int| tile_rec(tiles, i + x),
        ));
    }
}

/// The directory entry of tile `i`, its payload placed from `p0`.
pub open spec fn tile_entry(tiles: Seq<Tile>, p0: int, i: int) -> TileDirEntry {
    TileDirEntry {
        min_a: tiles[i].min_a,
        max_a: tiles[i].max_a,
        start: (p0 + payload_bytes(tiles, i).len()) as u64,
        end: (p0 + payload_bytes(tiles, i + 1).len()) as u64,
    }
}

/// The records' byte ranges, from record `i` on, lie end to end from where
/// tile `i`'s payload lands.
pub proof fn lemma_dir_ranges(tiles: Seq<Tile>, p0: int, i: int, total: u64)
    requires
        0 <= i <= tiles.len(),
        0 <= p0,
        p0 + payload_bytes(tiles, tiles.len() as int).len() <= total,
    ensures
        dir_ranges(
            Seq::new((tiles.len() - i) as nat, |x: int| tile_rec(tiles, i + x)),
            p0 + payload_bytes(tiles, i).len(),
            total,
        ) == Some(Seq::new((tiles.len() - i) as nat, |x: int| tile_entry(tiles, p0, i + x))),
    decreases tiles.len() - i,
{
    let n = tiles.len() as int;
    let recs = Seq::new((tiles.len() - i) as nat, |x: int| tile_rec(tiles, i + x));
    if i == n {
        assert(Seq::new((tiles.len() - i) as nat, |x: int| tile_entry(tiles, p0, i + x)) =~= Seq::<TileDirEntry>::empty());
    } else {
        lemma_payload_bytes_prefix(tiles, i + 1, n);
        assert(payload_bytes(tiles, i + 1) == payload_bytes(tiles, i) + tiles[i].bytes@);
        assert(recs.drop_first() =~= Seq::new((tiles.len() - (i + 1)) as nat, |x: int| tile_rec(tiles, i + 1 + x)));
        lemma_dir_ranges(tiles, p0, i + 1, total);
        let rest = Seq::new((tiles.len() - (i + 1)) as nat, |x: int| tile_entry(tiles, p0, i + 1 + x));
        assert(seq![tile_entry(tiles, p0, i)] + rest =~= Seq::new(
            (tiles.len() - i) as nat,
            |x: int| tile_entry(tiles, p0, i + x),
        ));
    }
}

/// Tiles stored as written decode, from entry `i` on, to their leading
/// ranges and bytes.
pub proof fn lemma_decode_tiles(s: Seq<u8>, tiles: Seq<Tile>, p0: int, i: int)
    requires
        0 <= i <= tiles.len(),
        0 <= p0,
        s.len() <= u64::MAX,
        p0 + payload_bytes(tiles, tiles.len() as int).len() <= s.len(),
        s.subrange(p0, p0 + payload_bytes(tiles, tiles.len() as int).len()) == payload_bytes(
            tiles,
            tiles.len() as int,
        ),
    ensures
        decode_tiles(s, Seq::new((tiles.len() - i) as nat, |x: int| tile_entry(tiles, p0, i + x)), CODEC_NONE) == Ok::<
            Seq<(u32, u32, Seq<u8>)>,
            FileError,
        >(tiles.skip(i).map_values(|t: Tile| tile_view(t))),
    decreases tiles.len() - i,
{
    let n = tiles.len() as int;
    let es = Seq::new((tiles.len() - i) as nat, |x: int| tile_entry(tiles, p0, i + x));
    let pl = payload_bytes(tiles, n);
    if i == n {
        assert(tiles.skip(i).map_values(|t: Tile| tile_view(t)) =~= Seq::<(u32, u32, Seq<u8>)>::empty());
    } else {
        lemma_payload_bytes_prefix(tiles, i, n);
        lemma_payload_bytes_prefix(tiles, i + 1, n);
        let a = payload_bytes(tiles, i).len() as int;
        let b = payload_bytes(tiles, i + 1).len() as int;
        assert(payload_bytes(tiles, i + 1) == payload_bytes(tiles, i) + tiles[i].bytes@);
        assert(s.subrange(p0 + a, p0 + b) =~= tiles[i].bytes@) by {
            assert forall|x: int| 0 <= x < b - a implies s.subrange(p0 + a, p0 + b)[x] == tiles[i].bytes@[x] by {
                assert(s.subrange(p0, p0 + pl.len())[a + x] == s[p0 + a + x]);
                assert(pl.subrange(0, b)[a + x] == payload_bytes(tiles, i + 1)[a + x]);
            }
        }
        assert(es[0] == tile_entry(tiles, p0, i));
        assert(es[0].start == p0 + a && es[0].end == p0 + b);
        assert(es.drop_first() =~= Seq::new((tiles.len() - (i + 1)) as nat, |x: int| tile_entry(tiles, p0, i + 1 + x)));
        lemma_decode_tiles(s, tiles, p0, i + 1);
        assert(seq![tile_view(tiles[i])] + tiles.skip(i + 1).map_values(|t: Tile| tile_view(t)) =~= tiles.skip(
            i,
        ).map_values(|t: Tile| tile_view(t)));
    }
}

/// The tiled-section law: a tiled section laid out from `tiles` decodes,
/// stored as written, to each tile's leading range and bytes, in order.
#[verifier::rlimit(50)]
#[verifier::spinoff_prover]
pub proof fn lemma_tiled_roundtrip(tiles: Seq<Tile>)
    requires
        tiles.len() <= u64::MAX,
        forall|j: int| 0 <= j < tiles.len() ==> (#[trigger] tiles[j]).bytes@.len() <= u64::MAX,
        tiled_section_bytes(tiles).len() <= u64::MAX,
    ensures
        spec_decode_tiled(tiled_section_bytes(tiles), CODEC_NONE) == Ok::<Seq<(u32, u32, Seq<u8>)>, FileError>(
            tiles.map_values(|t: Tile| tile_view(t)),
        ),
{
    let n = tiles.len() as int;
    let s = tiled_section_bytes(tiles);
    let d = dir_bytes(tiles, n);
    let pl = payload_bytes(tiles, n);
    let tr = trailer_bytes(tiles, n);
    let u = uvarint_bytes(tiles.len());
    crate::varint::lemma_read_write_uvarint(tiles.len() as u64, d + pl + tr);
    assert(s =~= u + (d + pl + tr));
    let q = u.len() as int;
    assert(s.subrange(q, q + d.len()) =~= d);
    lemma_dir_records(s, q, tiles, 0);
    assert(dir_bytes(tiles, 0).len() == 0);
    assert(prev_min(tiles, 0) == 0);
    let p0 = q + d.len();
    lemma_dir_ranges(tiles, p0, 0, s.len() as u64);
    assert(payload_bytes(tiles, 0).len() == 0);
    assert(s.subrange(p0, p0 + pl.len()) =~= pl);
    lemma_decode_tiles(s, tiles, p0, 0);
    assert(tiles.skip(0) =~= tiles);
    assert(spec_tile_directory(s, s.len() as u64) == Ok::<Seq<TileDirEntry>, FileError>(
        Seq::new((tiles.len() - 0) as nat, |x: int| tile_entry(tiles, p0, 0 + x)),
    ));
}

/// The first-generation payloads of the slots below `k`: one per carried
/// slot, the carried slot `j` at position `perms_below(mask, j)`.
pub proof fn lemma_perm_payloads(mask: u8, sections: Seq<Vec<Tile>>, k: int)
    requires
        0 <= k,
    ensures
        perm_payloads(mask, sections, k).len() == perms_below(mask, k),
        forall|j: int|
            0 <= j < k && has_perm(mask, j) ==> perm_payloads(mask, sections, k)[#[trigger] perms_below(mask, j) as int]
                == tiled_section_bytes(slot_tiles(sections, j)),
    decreases k,
{
    if k > 0 {
        lemma_perm_payloads(mask, sections, k - 1);
        lemma_perms_below(mask, k - 1);
        let a = perm_payloads(mask, sections, k - 1);
        assert forall|j: int|
            0 <= j < k && has_perm(mask, j) implies perm_payloads(mask, sections, k)[#[trigger] perms_below(mask, j) as int]
            == tiled_section_bytes(slot_tiles(sections, j)) by {
            lemma_perms_below(mask, k - 1);
            if j < k - 1 {
                assert(perms_below(mask, j + 1) <= perms_below(mask, k - 1));
                lemma_perms_below(mask, j);
            }
        }
    }
}

/// A run of tiles held in a vector whose tiled section fits the address
/// space.
pub open spec fn tiled_fits(tiles: Seq<Tile>) -> bool {
    tiled_section_bytes(tiles).len() <= usize::MAX
}

/// The first-generation index law: decoding what the encoder wrote for
/// `index` succeeds, and gives, in each carried slot, the tiles of `index`
/// with their leading ranges and bytes, and nothing in the others.
#[verifier::rlimit(50)]
#[verifier::spinoff_prover]
pub proof fn lemma_index_legacy_roundtrip(index: GraphIndex, out: GraphIndex)
    requires
        forall|k: int| 0 <= k < 6 && has_perm(index.perms, k) ==> #[trigger] tiled_fits(slot_tiles(index.sections@, k)),
        legacy_index_result(legacy_container(index), CODEC_NONE, index.perms, Ok(out)),
    ensures
        out.perms == index.perms,
        out.sections@.len() == 6,
        forall|k: int|
            0 <= k < 6 ==> (#[trigger] out.sections@[k])@.map_values(|t: Tile| tile_view(t)) == if has_perm(
                index.perms,
                k,
            ) {
                slot_tiles(index.sections@, k).map_values(|t: Tile| tile_view(t))
            } else {
                Seq::empty()
            },
{
    let mask = index.perms;
    let ps = perm_payloads(mask, index.sections@, 6);
    lemma_perm_payloads(mask, index.sections@, 6);
    lemma_perms_below(mask, 6);
    assert forall|i: int| 0 <= i < ps.len() implies #[trigger] ps[i].len() <= usize::MAX by {
        lemma_carried_slot_at(mask, i);
        let j = choose|j: int| 0 <= j < 6 && has_perm(mask, j) && perms_below(mask, j) == i;
        assert(tiled_fits(slot_tiles(index.sections@, j)));
    }
    crate::container::lemma_container_roundtrip(ps);
    assert(perm_count(mask) == ps.len());
    assert forall|k: int| 0 <= k < 6 implies (#[trigger] out.sections@[k])@.map_values(|t: Tile| tile_view(t)) == if has_perm(
        mask,
        k,
    ) {
        slot_tiles(index.sections@, k).map_values(|t: Tile| tile_view(t))
    } else {
        Seq::empty()
    } by {
        if has_perm(mask, k) {
            let tiles = slot_tiles(index.sections@, k);
            assert(ps[perms_below(mask, k) as int] == tiled_section_bytes(tiles));
            assert(tiled_fits(tiles));
            assert forall|j: int| 0 <= j < tiles.len() implies (#[trigger] tiles[j]).bytes@.len() <= u64::MAX by {
                assert(tiles[j].bytes.len() == tiles[j].bytes@.len());
            }
            assert(tiles.len() <= u64::MAX) by {
                if 0 <= k < index.sections@.len() {
                    assert(index.sections@[k].len() == index.sections@[k]@.len());
                }
            }
            lemma_tiled_roundtrip(tiles);
        } else {
            assert(out.sections@[k]@.len() == 0);
            assert(out.sections@[k]@.map_values(|t: Tile| tile_view(t)) =~= Seq::<(u32, u32, Seq<u8>)>::empty());
        }
    }
}

/// Every payload position of a first-generation container belongs to a
/// carried slot.
pub proof fn lemma_carried_slot_at(mask: u8, i: int)
    requires
        0 <= i < perm_count(mask),
    ensures
        exists|j: int| 0 <= j < 6 && has_perm(mask, j) && perms_below(mask, j) == i,
{
    lemma_perms_below(mask, 0);
    lemma_perms_below(mask, 1);
    lemma_perms_below(mask, 2);
    lemma_perms_below(mask, 3);
    lemma_perms_below(mask, 4);
    lemma_perms_below(mask, 5);
    lemma_perms_below(mask, 6);
    if perms_below(mask, 1) > i {
        assert(has_perm(mask, 0) && perms_below(mask, 0) == i);
    } else if perms_below(mask, 2) > i {
        assert(has_perm(mask, 1) && perms_below(mask, 1) == i);
    } else if perms_below(mask, 3) > i {
        assert(has_perm(mask, 2) && perms_below(mask, 2) == i);
    } else if perms_below(mask, 4) > i {
        assert(has_perm(mask, 3) && perms_below(mask, 3) == i);
    } else if perms_below(mask, 5) > i {
        assert(has_perm(mask, 4) && perms_below(mask, 4) == i);
    } else {
        assert(has_perm(mask, 5) && perms_below(mask, 5) == i);
    }
}

} // verus!
