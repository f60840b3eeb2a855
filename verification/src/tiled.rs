//! The per-permutation tiled section: `[tile count][per tile: minimum delta,
//! span, stored length][tile payloads][synopsis trailer]`, each tile stored
//! on its own so a range reader fetches only the tiles a query routes to.
use vstd::prelude::*;

use crate::codec::{compress, decompress, spec_decompress, FileError};
use crate::image::ByteRange;
use crate::index::{synopsis_of, tile_content, Tile};
use crate::varint::{leb_decode, read_uvarint_at, spec_read_uvarint, uvarint_bytes, write_uvarint};

verus! {

/// One parsed directory entry: the tile's leading range and its byte range
/// within the section payload.
#[derive(Clone, Copy, Debug, PartialEq, Eq)]
pub struct TileDirEntry {
    pub min_a: u32,
    pub max_a: u32,
    pub start: u64,
    pub end: u64,
}

/// `x` reduced to 32 bits, as a wrapping sum lands.
pub open spec fn wrap32(x: int) -> u32 {
    (x % 0x1_0000_0000) as u32
}

/// The `n` directory records from `pos` on, given the previous tile's
/// minimum: each tile's leading range (built by wrapping 32-bit sums of the
/// stored delta and span, both truncated to 32 bits) and stored length, and
/// the position after them.
pub open spec fn dir_records(s: Seq<u8>, pos: nat, n: nat, prev: u32) -> Option<(Seq<(u32, u32, u64)>, nat)>
    decreases n,
{
    if n == 0 {
        Some((seq![], pos))
    } else {
        match spec_read_uvarint(s.skip(pos as int)) {
            None => None,
            Some((dmin, k1)) => match spec_read_uvarint(s.skip((pos + k1) as int)) {
                None => None,
                Some((span, k2)) => match spec_read_uvarint(s.skip((pos + k1 + k2) as int)) {
                    None => None,
                    Some((len, k3)) => {
                        let min_a = wrap32(prev + (dmin as u32));
                        let max_a = wrap32(min_a + (span as u32));
                        match dir_records(s, pos + k1 + k2 + k3, (n - 1) as nat, min_a) {
                            None => None,
                            Some((rest, end)) => Some((seq![(min_a, max_a, len)] + rest, end)),
                        }
                    },
                },
            },
        }
    }
}

/// The records' byte ranges laid end to end from `start`, each ending
/// within `total`.
pub open spec fn dir_ranges(recs: Seq<(u32, u32, u64)>, start: int, total: u64) -> Option<Seq<TileDirEntry>>
    decreases recs.len(),
{
    if recs.len() == 0 {
        Some(seq![])
    } else {
        let end = start + recs[0].2;
        if end > total {
            None
        } else {
            match dir_ranges(recs.drop_first(), end, total) {
                Some(rest) => Some(
                    seq![TileDirEntry { min_a: recs[0].0, max_a: recs[0].1, start: start as u64, end: end as u64 }]
                        + rest,
                ),
                None => None,
            }
        }
    }
}

/// What [`parse_tile_directory`] gives for `s`, a prefix of a section
/// payload of `total` bytes.
pub open spec fn spec_tile_directory(s: Seq<u8>, total: u64) -> Result<Seq<TileDirEntry>, FileError> {
    match spec_read_uvarint(s) {
        None => Err(FileError::Container("truncated tile directory")),
        Some((n, p)) => match dir_records(s, p, n as nat, 0) {
            None => Err(FileError::Container("truncated tile directory")),
            Some((recs, end)) => match dir_ranges(recs, end as int, total) {
                None => Err(FileError::Container("tile overruns section")),
                Some(es) => Ok(es),
            },
        },
    }
}

/// Whether `s` is a prefix of `t`.
pub open spec fn is_prefix(s: Seq<u8>, t: Seq<u8>) -> bool {
    s.len() <= t.len() && t.subrange(0, s.len() as int) == s
}

/// A group decoded from a prefix decodes the same from the whole.
pub proof fn lemma_leb_prefix(s: Seq<u8>, t: Seq<u8>, budget: nat)
    requires
        is_prefix(s, t),
        leb_decode(s, budget) is Some,
    ensures
        leb_decode(t, budget) == leb_decode(s, budget),
    decreases budget,
{
    assert(s[0] == t.subrange(0, s.len() as int)[0]);
    if s[0] >= 128 {
        assert(t.drop_first().subrange(0, s.drop_first().len() as int) =~= s.drop_first()) by {
            assert forall|i: int| 0 <= i < s.len() - 1 implies t.drop_first()[i] == s.drop_first()[i] by {
                assert(t.subrange(0, s.len() as int)[i + 1] == s[i + 1]);
            }
        }
        lemma_leb_prefix(s.drop_first(), t.drop_first(), (budget - 1) as nat);
    }
}

/// A varint read from a prefix reads the same from the whole.
pub proof fn lemma_uvarint_prefix(s: Seq<u8>, t: Seq<u8>, pos: nat)
    requires
        is_prefix(s, t),
        pos <= s.len(),
        spec_read_uvarint(s.skip(pos as int)) is Some,
    ensures
        spec_read_uvarint(t.skip(pos as int)) == spec_read_uvarint(s.skip(pos as int)),
        spec_read_uvarint(s.skip(pos as int)) matches Some((v, k)) && pos + k <= s.len(),
{
    assert(is_prefix(s.skip(pos as int), t.skip(pos as int))) by {
        assert(t.skip(pos as int).subrange(0, s.skip(pos as int).len() as int) =~= s.skip(pos as int)) by {
            assert forall|i: int| 0 <= i < s.len() - pos implies t.skip(pos as int)[i] == s.skip(pos as int)[i] by {
                assert(t.subrange(0, s.len() as int)[pos + i] == s[pos + i]);
            }
        }
    }
    lemma_leb_prefix(s.skip(pos as int), t.skip(pos as int), 10);
    crate::varint::lemma_leb_decode_bounds(s.skip(pos as int), 10);
}

/// Directory records read from a prefix read the same from the whole.
pub proof fn lemma_dir_records_prefix(s: Seq<u8>, t: Seq<u8>, pos: nat, n: nat, prev: u32)
    requires
        is_prefix(s, t),
        pos <= s.len(),
        dir_records(s, pos, n, prev) is Some,
    ensures
        dir_records(t, pos, n, prev) == dir_records(s, pos, n, prev),
    decreases n,
{
    if n > 0 {
        lemma_uvarint_prefix(s, t, pos);
        let (dmin, k1) = spec_read_uvarint(s.skip(pos as int))->0;
        lemma_uvarint_prefix(s, t, pos + k1);
        let (span, k2) = spec_read_uvarint(s.skip((pos + k1) as int))->0;
        lemma_uvarint_prefix(s, t, pos + k1 + k2);
        let (len, k3) = spec_read_uvarint(s.skip((pos + k1 + k2) as int))->0;
        let min_a = wrap32(prev + (dmin as u32));
        lemma_dir_records_prefix(s, t, pos + k1 + k2 + k3, (n - 1) as nat, min_a);
    }
}

/// A directory read from a prefix of a section reads the same from the
/// whole section.
pub proof fn lemma_tile_directory_prefix(s: Seq<u8>, t: Seq<u8>, total: u64)
    requires
        is_prefix(s, t),
        spec_tile_directory(s, total) is Ok,
    ensures
        spec_tile_directory(t, total) == spec_tile_directory(s, total),
{
    assert(s.skip(0) =~= s);
    assert(t.skip(0) =~= t);
    lemma_uvarint_prefix(s, t, 0);
    let (n, p) = spec_read_uvarint(s)->0;
    lemma_dir_records_prefix(s, t, p, n as nat, 0);
}

/// Entries laid end to end from `start` lie in order between `start` and
/// `total`.
pub proof fn lemma_dir_ranges_order(recs: Seq<(u32, u32, u64)>, start: int, total: u64)
    requires
        dir_ranges(recs, start, total) is Some,
        0 <= start,
    ensures
        ({
            let es = dir_ranges(recs, start, total)->0;
            &&& es.len() == recs.len()
            &&& es.len() > 0 ==> es[0].start == start
            &&& forall|i: int| 0 <= i < es.len() ==> start <= #[trigger] es[i].start <= es[i].end <= total
            &&& forall|i: int| 0 <= i < es.len() ==> #[trigger] es[i].end <= es.last().end
        }),
    decreases recs.len(),
{
    if recs.len() > 0 {
        let end = start + recs[0].2;
        lemma_dir_ranges_order(recs.drop_first(), end, total);
        let es = dir_ranges(recs, start, total)->0;
        let rest = dir_ranges(recs.drop_first(), end, total)->0;
        assert forall|i: int| 0 <= i < es.len() implies start <= #[trigger] es[i].start <= es[i].end <= total by {
            if i > 0 {
                assert(es[i] == rest[i - 1]);
            }
        }
        assert forall|i: int| 0 <= i < es.len() implies #[trigger] es[i].end <= es.last().end by {
            if i > 0 {
                assert(es[i] == rest[i - 1]);
            }
            if es.len() > 1 {
                assert(es.last() == rest.last());
                assert(rest[0].end <= rest.last().end);
            }
        }
    }
}

/// A parsed directory's entries lie in order within the section: each
/// starts no earlier than the first and ends no later than the last.
pub proof fn lemma_tile_directory_order(s: Seq<u8>, total: u64)
    requires
        spec_tile_directory(s, total) is Ok,
    ensures
        ({
            let es = spec_tile_directory(s, total)->Ok_0;
            &&& forall|i: int| 0 <= i < es.len() ==> #[trigger] es[i].start <= es[i].end <= total
            &&& forall|i: int| 0 <= i < es.len() ==> es[0].start <= #[trigger] es[i].start && es[i].end <= es.last().end
        }),
{
    let (n, p) = spec_read_uvarint(s)->0;
    let (recs, end) = dir_records(s, p, n as nat, 0)->0;
    lemma_dir_ranges_order(recs, end as int, total);
}

/// Parse a tiled section's directory. `bytes` may be a prefix of the
/// payload; every tile must end within `total_len`, the payload's length.
#[verifier::rlimit(50)]
pub fn parse_tile_directory(bytes: &[u8], total_len: u64) -> (r: Result<Vec<TileDirEntry>, FileError>)
    ensures
        match spec_tile_directory(bytes@, total_len) {
            Ok(es) => r matches Ok(v) && v@ == es,
            Err(e) => r == Err::<Vec<TileDirEntry>, FileError>(e),
        },
{
    proof {
        assert(bytes@.skip(0) =~= bytes@);
    }
    let (n, p0) = match read_uvarint_at(bytes, 0) {
        Some(x) => x,
        None => return Err(FileError::Container("truncated tile directory")),
    };
    let blen = bytes.len();
    let mut recs: Vec<(u32, u32, u64)> = Vec::new();
    let mut pos = p0;
    let mut prev: u32 = 0;
    let mut i: u64 = 0;
    while i < n
        invariant
            blen == bytes@.len(),
            pos <= blen,
            i <= n,
            spec_read_uvarint(bytes@) == Some((n, p0 as nat)),
            dir_records(bytes@, p0 as nat, n as nat, 0) == match dir_records(bytes@, pos as nat, (n - i) as nat, prev) {
                Some((rest, end)) => Some((recs@ + rest, end)),
                None => None,
            },
        decreases n - i,
    {
        let (dmin, k1) = match read_uvarint_at(bytes, pos) {
            Some(x) => x,
            None => return Err(FileError::Container("truncated tile directory")),
        };
        let (span, k2) = match read_uvarint_at(bytes, pos + k1) {
            Some(x) => x,
            None => return Err(FileError::Container("truncated tile directory")),
        };
        let (len, k3) = match read_uvarint_at(bytes, pos + k1 + k2) {
            Some(x) => x,
            None => return Err(FileError::Container("truncated tile directory")),
        };
        let min_a = prev.wrapping_add(dmin as u32);
        let max_a = min_a.wrapping_add(span as u32);
        proof {
            assert(min_a == wrap32(prev + (dmin as u32)));
            assert(max_a == wrap32(min_a + (span as u32)));
        }
        let ghost before = recs@;
        recs.push((min_a, max_a, len));
        proof {
            match dir_records(bytes@, (pos + k1 + k2 + k3) as nat, (n - i - 1) as nat, min_a) {
                Some((rest, end)) => {
                    assert(before + (seq![(min_a, max_a, len)] + rest) =~= recs@ + rest);
                },
                None => {},
            }
        }
        pos = pos + k1 + k2 + k3;
        prev = min_a;
        i = i + 1;
    }
    proof {
        assert(recs@ + Seq::<(u32, u32, u64)>::empty() =~= recs@);
    }
    let m = recs.len();
    let mut out: Vec<TileDirEntry> = Vec::new();
    let mut start: u64 = pos as u64;
    let mut j: usize = 0;
    let ghost dir_end = pos;
    proof {
        assert(recs@.skip(0) =~= recs@);
        assert(out@ =~= Seq::<TileDirEntry>::empty());
    }
    while j < m
        invariant
            m == recs@.len(),
            j <= m,
            spec_tile_directory(bytes@, total_len) == match dir_ranges(recs@, dir_end as int, total_len) {
                None => Err(FileError::Container("tile overruns section")),
                Some(es) => Ok::<Seq<TileDirEntry>, FileError>(es),
            },
            dir_ranges(recs@, dir_end as int, total_len) == match dir_ranges(recs@.skip(j as int), start as int, total_len) {
                Some(rest) => Some(out@ + rest),
                None => None,
            },
        decreases m - j,
    {
        let (lo, hi, len) = recs[j];
        proof {
            assert(recs@.skip(j as int).drop_first() =~= recs@.skip(j + 1));
            assert(recs@.skip(j as int)[0] == recs@[j as int]);
        }
        if len > total_len || start > total_len - len {
            return Err(FileError::Container("tile overruns section"));
        }
        let end = start + len;
        let ghost before = out@;
        out.push(TileDirEntry { min_a: lo, max_a: hi, start, end });
        proof {
            match dir_ranges(recs@.skip(j + 1), end as int, total_len) {
                Some(rest) => {
                    assert(before + (seq![TileDirEntry { min_a: lo, max_a: hi, start, end }] + rest) =~= out@ + rest);
                },
                None => {},
            }
        }
        start = end;
        j = j + 1;
    }
    proof {
        assert(recs@.skip(m as int) =~= Seq::<(u32, u32, u64)>::empty());
        assert(out@ + Seq::<TileDirEntry>::empty() =~= out@);
    }
    Ok(out)
}

/// The `n` synopses from `pos` on: four varints each (smallest middle
/// value, its span, smallest last value, its span), every one fitting a
/// `u32`, as inclusive ranges.
pub open spec fn syn_records(s: Seq<u8>, pos: nat, n: nat) -> Option<Seq<(u32, u32, u32, u32)>>
    decreases n,
{
    if n == 0 {
        Some(seq![])
    } else if pos > s.len() {
        None
    } else {
        match spec_read_uvarint(s.skip(pos as int)) {
            None => None,
            Some((lb, k1)) => match spec_read_uvarint(s.skip((pos + k1) as int)) {
                None => None,
                Some((sb, k2)) => match spec_read_uvarint(s.skip((pos + k1 + k2) as int)) {
                    None => None,
                    Some((lc, k3)) => match spec_read_uvarint(s.skip((pos + k1 + k2 + k3) as int)) {
                        None => None,
                        Some((sc, k4)) => if lb > u32::MAX || sb > u32::MAX || lc > u32::MAX || sc
                            > u32::MAX || lb + sb > u32::MAX || lc + sc > u32::MAX {
                            None
                        } else {
                            match syn_records(s, pos + k1 + k2 + k3 + k4, (n - 1) as nat) {
                                None => None,
                                Some(rest) => Some(
                                    seq![(lb as u32, (lb + sb) as u32, lc as u32, (lc + sc) as u32)] + rest,
                                ),
                            }
                        },
                    },
                },
            },
        }
    }
}

/// Parse the synopsis trailer that starts at `trailer_start`: one synopsis
/// per tile, in directory order.
pub fn parse_tile_synopsis(payload: &[u8], trailer_start: usize, num_tiles: usize) -> (r: Option<
    Vec<(u32, u32, u32, u32)>,
>)
    ensures
        match syn_records(payload@, trailer_start as nat, num_tiles as nat) {
            Some(v) => r matches Some(x) && x@ == v,
            None => r is None,
        },
{
    let blen = payload.len();
    let mut out: Vec<(u32, u32, u32, u32)> = Vec::new();
    let mut pos = trailer_start;
    let mut i: usize = 0;
    while i < num_tiles
        invariant
            blen == payload@.len(),
            i <= num_tiles,
            syn_records(payload@, trailer_start as nat, num_tiles as nat) == match syn_records(
                payload@,
                pos as nat,
                (num_tiles - i) as nat,
            ) {
                Some(rest) => Some(out@ + rest),
                None => None,
            },
        decreases num_tiles - i,
    {
        if pos > blen {
            return None;
        }
        let (lb, k1) = match read_uvarint_at(payload, pos) {
            Some(x) => x,
            None => return None,
        };
        let (sb, k2) = match read_uvarint_at(payload, pos + k1) {
            Some(x) => x,
            None => return None,
        };
        let (lc, k3) = match read_uvarint_at(payload, pos + k1 + k2) {
            Some(x) => x,
            None => return None,
        };
        let (sc, k4) = match read_uvarint_at(payload, pos + k1 + k2 + k3) {
            Some(x) => x,
            None => return None,
        };
        if lb > 0xffff_ffff || sb > 0xffff_ffff || lc > 0xffff_ffff || sc > 0xffff_ffff || lb + sb
            > 0xffff_ffff || lc + sc > 0xffff_ffff {
            return None;
        }
        let syn = (lb as u32, (lb + sb) as u32, lc as u32, (lc + sc) as u32);
        let ghost before = out@;
        out.push(syn);
        proof {
            match syn_records(payload@, (pos + k1 + k2 + k3 + k4) as nat, (num_tiles - i - 1) as nat) {
                Some(rest) => {
                    assert(before + (seq![syn] + rest) =~= out@ + rest);
                },
                None => {},
            }
        }
        pos = pos + k1 + k2 + k3 + k4;
        i = i + 1;
    }
    proof {
        assert(out@ + Seq::<(u32, u32, u32, u32)>::empty() =~= out@);
    }
    Some(out)
}

/// The tiles of a parsed directory, each decompressed, or the first failure.
pub open spec fn decode_tiles(payload: Seq<u8>, es: Seq<TileDirEntry>, codec: u8) -> Result<
    Seq<(u32, u32, Seq<u8>)>,
    FileError,
>
    decreases es.len(),
{
    if es.len() == 0 {
        Ok(seq![])
    } else {
        let e = es[0];
        match spec_decompress(codec, payload.subrange(e.start as int, e.end as int)) {
            Err(err) => Err(err),
            Ok(t) => match decode_tiles(payload, es.drop_first(), codec) {
                Ok(rest) => Ok(seq![(e.min_a, e.max_a, t)] + rest),
                Err(err) => Err(err),
            },
        }
    }
}

/// What decoding a whole tiled section gives.
pub open spec fn spec_decode_tiled(payload: Seq<u8>, codec: u8) -> Result<Seq<(u32, u32, Seq<u8>)>, FileError> {
    match spec_tile_directory(payload, payload.len() as u64) {
        Err(e) => Err(e),
        Ok(es) => decode_tiles(payload, es, codec),
    }
}

/// A parsed directory's entries lie within the payload and in order.
pub proof fn lemma_dir_ranges_bounds(recs: Seq<(u32, u32, u64)>, start: int, total: u64)
    requires
        start >= 0,
    ensures
        dir_ranges(recs, start, total) matches Some(es) ==> es.len() == recs.len() && forall|i: int|
            0 <= i < es.len() ==> start <= (#[trigger] es[i]).start <= es[i].end <= total,
    decreases recs.len(),
{
    if recs.len() > 0 {
        let end = start + recs[0].2;
        lemma_dir_ranges_bounds(recs.drop_first(), end, total);
        if let Some(es) = dir_ranges(recs, start, total) {
            let rest = dir_ranges(recs.drop_first(), end, total)->0;
            assert forall|i: int| 0 <= i < es.len() implies start <= (#[trigger] es[i]).start <= es[i].end <= total by {
                if i > 0 {
                    assert(es[i] == rest[i - 1]);
                }
            }
        }
    }
}

/// A parsed directory's entries lie, in order, within the payload.
pub proof fn lemma_tile_directory_bounds(s: Seq<u8>, total: u64)
    ensures
        spec_tile_directory(s, total) matches Ok(es) ==> forall|i: int|
            0 <= i < es.len() ==> (#[trigger] es[i]).start <= es[i].end <= total,
{
    if let Some((n, p)) = spec_read_uvarint(s) {
        if let Some((recs, end)) = dir_records(s, p, n as nat, 0) {
            lemma_dir_ranges_bounds(recs, end as int, total);
        }
    }
}

/// Decode a tiled section payload into its tiles: leading range and
/// decompressed bytes.
pub fn decode_tiled_section(payload: &[u8], codec: u8) -> (r: Result<Vec<(u32, u32, Vec<u8>)>, FileError>)
    ensures
        match spec_decode_tiled(payload@, codec) {
            Ok(ts) => r matches Ok(v) && v@.map_values(|x: (u32, u32, Vec<u8>)| (x.0, x.1, x.2@)) == ts,
            Err(e) => r == Err::<Vec<(u32, u32, Vec<u8>)>, FileError>(e),
        },
{
    let es = parse_tile_directory(payload, payload.len() as u64)?;
    proof {
        let (n, p) = spec_read_uvarint(payload@)->0;
        let (recs, end) = dir_records(payload@, p, n as nat, 0)->0;
        lemma_dir_ranges_bounds(recs, end as int, payload@.len() as u64);
        assert(es@ == dir_ranges(recs, end as int, payload@.len() as u64)->0);
        assert(spec_decode_tiled(payload@, codec) == decode_tiles(payload@, es@, codec));
        assert(es@.skip(0) =~= es@);
    }
    let ghost view = |x: (u32, u32, Vec<u8>)| (x.0, x.1, x.2@);
    let mut out: Vec<(u32, u32, Vec<u8>)> = Vec::new();
    let n = es.len();
    let plen = payload.len();
    proof {
        assert(out@.map_values(view) =~= Seq::<(u32, u32, Seq<u8>)>::empty());
        match decode_tiles(payload@, es@, codec) {
            Ok(rest) => {
                assert(out@.map_values(view) + rest =~= rest);
            },
            Err(_) => {},
        }
    }
    let mut i: usize = 0;
    while i < n
        invariant
            n == es@.len(),
            i <= n,
            view == (|x: (u32, u32, Vec<u8>)| (x.0, x.1, x.2@)),
            spec_decode_tiled(payload@, codec) == decode_tiles(payload@, es@, codec),
            plen == payload@.len(),
            forall|j: int| 0 <= j < n ==> (#[trigger] es@[j]).start <= es@[j].end <= payload@.len(),
            decode_tiles(payload@, es@, codec) == match decode_tiles(payload@, es@.skip(i as int), codec) {
                Ok(rest) => Ok(out@.map_values(view) + rest),
                Err(e) => Err::<Seq<(u32, u32, Seq<u8>)>, FileError>(e),
            },
        decreases n - i,
    {
        let e = es[i];
        proof {
            assert(es@.skip(i as int).drop_first() =~= es@.skip(i + 1));
            assert(es@.skip(i as int)[0] == e);
            assert(e.start <= e.end <= payload@.len());
        }
        let t = match decompress(codec, vstd::slice::slice_subrange(payload, e.start as usize, e.end as usize)) {
            Ok(t) => t,
            Err(err) => {
                return Err(err);
            },
        };
        let ghost before = out@;
        out.push((e.min_a, e.max_a, t));
        proof {
            assert(out@.map_values(view) =~= before.map_values(view).push((e.min_a, e.max_a, t@)));
            match decode_tiles(payload@, es@.skip(i + 1), codec) {
                Ok(rest) => {
                    assert(before.map_values(view) + (seq![(e.min_a, e.max_a, t@)] + rest) =~= out@.map_values(view) + rest);
                },
                Err(_) => {},
            }
        }
        i = i + 1;
    }
    proof {
        assert(es@.skip(n as int) =~= Seq::<TileDirEntry>::empty());
        assert(out@.map_values(view) + Seq::<(u32, u32, Seq<u8>)>::empty() =~= out@.map_values(view));
    }
    Ok(out)
}

/// The previous tile's minimum, or zero before the first.
pub open spec fn prev_min(tiles: Seq<Tile>, i: int) -> u32 {
    if i <= 0 {
        0
    } else {
        tiles[i - 1].min_a
    }
}

/// Tiles in order: each range well formed, minima non-decreasing.
pub open spec fn tiles_ordered(tiles: Seq<Tile>) -> bool {
    forall|i: int|
        0 <= i < tiles.len() ==> (#[trigger] tiles[i]).min_a <= tiles[i].max_a && prev_min(tiles, i)
            <= tiles[i].min_a
}

/// Directory record `i`: minimum delta and span, both as 32-bit wrapping
/// differences, and stored length.
pub open spec fn dir_rec_bytes(tiles: Seq<Tile>, i: int) -> Seq<u8> {
    uvarint_bytes(wrap32(tiles[i].min_a - prev_min(tiles, i)) as nat) + uvarint_bytes(
        wrap32(tiles[i].max_a - tiles[i].min_a) as nat,
    ) + uvarint_bytes(tiles[i].bytes@.len())
}

/// The first `k` directory records.
pub open spec fn dir_bytes(tiles: Seq<Tile>, k: int) -> Seq<u8>
    decreases k,
{
    if k <= 0 {
        seq![]
    } else {
        dir_bytes(tiles, k - 1) + dir_rec_bytes(tiles, k - 1)
    }
}

/// The first `k` tile payloads.
pub open spec fn payload_bytes(tiles: Seq<Tile>, k: int) -> Seq<u8>
    decreases k,
{
    if k <= 0 {
        seq![]
    } else {
        payload_bytes(tiles, k - 1) + tiles[k - 1].bytes@
    }
}

/// A tile's synopsis, or the full range when its bytes are not a valid tile
/// (nothing is then ever pruned).
pub open spec fn full_syn(t: Tile) -> (u32, u32, u32, u32) {
    match tile_content(t.bytes@) {
        Some(ts) => synopsis_of(ts),
        None => (0, u32::MAX, 0, u32::MAX),
    }
}

/// One synopsis record.
pub open spec fn syn_rec_bytes(z: (u32, u32, u32, u32)) -> Seq<u8> {
    uvarint_bytes(z.0 as nat) + uvarint_bytes((z.1 - z.0) as nat) + uvarint_bytes(z.2 as nat)
        + uvarint_bytes((z.3 - z.2) as nat)
}

/// The first `k` synopsis records.
pub open spec fn trailer_bytes(tiles: Seq<Tile>, k: int) -> Seq<u8>
    decreases k,
{
    if k <= 0 {
        seq![]
    } else {
        trailer_bytes(tiles, k - 1) + syn_rec_bytes(full_syn(tiles[k - 1]))
    }
}

/// A whole tiled section.
pub open spec fn tiled_section_bytes(tiles: Seq<Tile>) -> Seq<u8> {
    let n = tiles.len() as int;
    uvarint_bytes(tiles.len()) + dir_bytes(tiles, n) + payload_bytes(tiles, n) + trailer_bytes(tiles, n)
}

/// A tile's synopsis, or the full range.
fn tile_synopsis_or_full(t: &Tile) -> (r: (u32, u32, u32, u32))
    ensures
        r == full_syn(*t),
        r.0 <= r.1 && r.2 <= r.3,
{
    match crate::index::tile_triples(t.bytes.as_slice()) {
        Some(ts) => {
            proof {
                assert(crate::tile::tile_wf(ts@));
                crate::index::lemma_synopsis_order(ts@);
            }
            crate::index::compute_synopsis(&ts)
        },
        None => (0, 0xffff_ffff, 0, 0xffff_ffff),
    }
}

/// Encode one permutation's tiled section, each tile stored with `codec` (as
/// is, in this build). Range fields are 32-bit wrapping differences, which
/// the directory's wrapping sums undo.
pub fn encode_tiled_section(tiles: &Vec<Tile>, codec: u8) -> (r: Vec<u8>)
    ensures
        r@ == tiled_section_bytes(tiles@),
{
    let n = tiles.len();
    let mut out: Vec<u8> = Vec::new();
    write_uvarint(&mut out, n as u64);
    let ghost head = out@;
    let mut prev: u32 = 0;
    let mut i: usize = 0;
    while i < n
        invariant
            n == tiles@.len(),
            i <= n,
            prev == prev_min(tiles@, i as int),
            out@ == head + dir_bytes(tiles@, i as int),
        decreases n - i,
    {
        let t = &tiles[i];
        proof {
            assert(tiles@[i as int] == *t);
        }
        let stored = compress(codec, t.bytes.as_slice());
        let dmin = t.min_a.wrapping_sub(prev);
        let span = t.max_a.wrapping_sub(t.min_a);
        proof {
            assert(dmin == wrap32(t.min_a - prev));
            assert(span == wrap32(t.max_a - t.min_a));
        }
        write_uvarint(&mut out, dmin as u64);
        write_uvarint(&mut out, span as u64);
        write_uvarint(&mut out, stored.len() as u64);
        proof {
            assert(out@ =~= head + dir_bytes(tiles@, i + 1));
        }
        prev = t.min_a;
        i = i + 1;
    }
    let ghost mid = out@;
    let mut i: usize = 0;
    while i < n
        invariant
            n == tiles@.len(),
            i <= n,
            out@ == mid + payload_bytes(tiles@, i as int),
        decreases n - i,
    {
        let stored = compress(codec, tiles[i].bytes.as_slice());
        out.extend_from_slice(stored.as_slice());
        proof {
            assert(out@ =~= mid + payload_bytes(tiles@, i + 1));
        }
        i = i + 1;
    }
    let ghost tail = out@;
    let mut i: usize = 0;
    while i < n
        invariant
            n == tiles@.len(),
            i <= n,
            out@ == tail + trailer_bytes(tiles@, i as int),
        decreases n - i,
    {
        let z = tile_synopsis_or_full(&tiles[i]);
        write_uvarint(&mut out, z.0 as u64);
        write_uvarint(&mut out, (z.1 - z.0) as u64);
        write_uvarint(&mut out, z.2 as u64);
        write_uvarint(&mut out, (z.3 - z.2) as u64);
        proof {
            assert(out@ =~= tail + trailer_bytes(tiles@, i + 1));
        }
        i = i + 1;
    }
    proof {
        assert(out@ =~= tiled_section_bytes(tiles@));
    }
    out
}

} // verus!
