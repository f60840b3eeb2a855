//! Second-generation permutation sections through a range reader: the
//! family framing first, then only the records a pattern's bounds admit.
use vstd::prelude::*;

use crate::codec::FileError;
use crate::family::{
    check_record, dir_ok, entry_at, fam_max, fam_min, family_tile, family_wf, family_wire, read_synopses,
    record_ok, records_bytes, records_start, records_total, syn_at, trailer_ok, validate_directory, FamilyFields,
};
use crate::index::{run_matches, Pattern};
use crate::ranged::{nondecreasing, sort_triples, tile_triples_or_empty};
use crate::tile::Triple;
use crate::image::{in_image, slice_of, ByteRange};
use crate::ranged::{checked_end, tile_matches};
use crate::reader::{log_follows, reads_within, same_source, RangeReader};
use crate::varint::{canonicals_bytes, read_canonical_at, read_canonical_run, uvarint_bytes};

verus! {

/// The image holds, from `start` and ending by `end`, the shortest
/// encodings of `vs`.
pub open spec fn fields_at(img: Seq<u8>, start: u64, end: u64, vs: Seq<u64>) -> bool {
    &&& start + canonicals_bytes(vs).len() <= end
    &&& end <= img.len()
    &&& img.subrange(start as int, start + canonicals_bytes(vs).len()) == canonicals_bytes(vs)
}

/// Where field `i` of fields held at `start` lies: after the encodings of
/// those before it, with at least one byte for each after it.
proof fn lemma_field_at(img: Seq<u8>, start: int, vs: Seq<u64>, i: int)
    requires
        0 <= i < vs.len(),
        0 <= start,
        start + canonicals_bytes(vs).len() <= img.len(),
        img.subrange(start, start + canonicals_bytes(vs).len()) == canonicals_bytes(vs),
    ensures
        ({
            let pos = canonicals_bytes(vs.take(i)).len();
            let m = uvarint_bytes(vs[i] as nat).len();
            &&& img.subrange(start + pos, start + pos + m) == uvarint_bytes(vs[i] as nat)
            &&& pos + m + (vs.len() - i - 1) <= canonicals_bytes(vs).len()
            &&& 1 <= m <= 10
            &&& canonicals_bytes(vs.take(i + 1)).len() == pos + m
        }),
{
    crate::varint::lemma_canonicals_prefix(vs, i);
    crate::varint::lemma_canonicals_prefix(vs, i + 1);
    crate::varint::lemma_read_canonical_write(vs[i], seq![]);
    let pre = canonicals_bytes(vs.take(i));
    let pre1 = canonicals_bytes(vs.take(i + 1));
    let e = uvarint_bytes(vs[i] as nat);
    let whole = canonicals_bytes(vs);
    assert(img.subrange(start + pre.len(), start + pre.len() + e.len()) =~= whole.subrange(pre.len() as int, pre1.len() as int));
    assert(whole.subrange(pre.len() as int, pre1.len() as int) =~= pre1.subrange(pre.len() as int, pre1.len() as int));
    assert(vs =~= vs.take(i + 1) + vs.skip(i + 1));
    crate::varint::lemma_canonicals_append(vs.take(i + 1), vs.skip(i + 1));
    crate::varint::lemma_canonicals_len(vs.skip(i + 1));
}

/// Read `field_count` shortest-form varints starting at `start`, never
/// past `end`, fetching at most as many bytes as fields remain per read:
/// the values and the position after them.
fn read_family_fields_exact<R: RangeReader>(reader: &mut R, start: u64, end: u64, field_count: usize) -> (r: Result<
    (Vec<u64>, u64),
    FileError,
>)
    requires
        start <= end,
        field_count > 0,
    ensures
        same_source(*final(reader), *old(reader)),
        reads_within(old(reader).requests(), final(reader).requests(), start as int, end as int, 4096),
        r matches Ok((vs, next)) ==> vs@.len() == field_count && start < next <= end && next
            <= old(reader).image().len() && old(reader).image().subrange(start as int, next as int) == canonicals_bytes(
            vs@,
        ),
        old(reader).reliable() && (exists|vs: Seq<u64>| vs.len() == field_count && fields_at(old(reader).image(), start, end, vs))
            ==> r is Ok,
{
    let ghost img = reader.image();
    let ghost ready = reader.reliable() && (exists|vs: Seq<u64>|
        vs.len() == field_count && fields_at(img, start, end, vs));
    let ghost want = choose|vs: Seq<u64>| vs.len() == field_count && fields_at(img, start, end, vs);
    let mut values: Vec<u64> = Vec::new();
    let mut pending: Vec<u8> = Vec::new();
    let mut pos: usize = 0;
    let mut read_offset: u64 = start;
    while values.len() < field_count
        invariant
            same_source(*reader, *old(reader)),
            reads_within(old(reader).requests(), reader.requests(), start as int, end as int, 4096),
            img == reader.image(),
            start <= read_offset <= end,
            pending@.len() == read_offset - start,
            read_offset > start ==> read_offset <= img.len() && pending@ == img.subrange(
                start as int,
                read_offset as int,
            ),
            pos <= pending@.len(),
            values@.len() <= field_count,
            pending@.subrange(0, pos as int) == canonicals_bytes(values@),
            ready == (reader.reliable() && (exists|vs: Seq<u64>|
                vs.len() == field_count && fields_at(img, start, end, vs))),
            ready ==> want.len() == field_count && fields_at(img, start, end, want),
            ready ==> values@ == want.take(values@.len() as int),
        decreases (end - read_offset) + (field_count - values@.len()),
    {
        let plen = pending.len();
        proof {
            if ready {
                lemma_field_at(img, start as int, want, values@.len() as int);
            }
        }
        match read_canonical_at(pending.as_slice(), pos) {
            Some((v, k)) => {
                let ghost before = values@;
                assert(pos + k <= plen);
                proof {
                    if ready {
                        let i = values@.len() as int;
                        let stream = img.skip(start + pos);
                        let m = uvarint_bytes(want[i] as nat).len();
                        assert(stream.subrange(0, k as int) =~= pending@.subrange(pos as int, pos + k));
                        assert(stream =~= uvarint_bytes(v as nat) + stream.skip(k as int));
                        assert(stream.subrange(0, m as int) =~= img.subrange(start + pos, start + pos + m));
                        assert(stream =~= uvarint_bytes(want[i] as nat) + stream.skip(m as int));
                        crate::varint::lemma_uvarint_prefix_unique(
                            v as nat,
                            want[i] as nat,
                            stream.skip(k as int),
                            stream.skip(m as int),
                        );
                        assert(want.take(i + 1) =~= want.take(i).push(v));
                    }
                }
                values.push(v);
                proof {
                    assert(values@.drop_last() =~= before);
                    assert(pending@.subrange(0, (pos + k) as int) =~= pending@.subrange(0, pos as int)
                        + pending@.subrange(pos as int, (pos + k) as int));
                }
                pos = pos + k;
            },
            None => {
                proof {
                    if ready {
                        let i = values@.len() as int;
                        let m = uvarint_bytes(want[i] as nat).len();
                        if pending@.len() - pos >= m {
                            assert(pending@.subrange(pos as int, pos + m) =~= img.subrange(start + pos, start + pos + m));
                            assert(pending@.skip(pos as int) =~= uvarint_bytes(want[i] as nat) + pending@.skip(pos + m));
                            crate::varint::lemma_read_canonical_write(want[i], pending@.skip(pos + m));
                        }
                        assert(pending@.len() - pos < m);
                        assert(read_offset + (field_count - i) <= start + canonicals_bytes(want).len());
                    }
                }
                if pending.len() - pos >= 10 {
                    return Err(FileError::Container("malformed family metadata varint"));
                }
                let unfinished = (field_count - values.len()) as u64;
                let fetch_len: u64 = if unfinished < 4096 { unfinished } else { 4096 };
                let fetch_end = checked_end(read_offset, fetch_len)?;
                if fetch_end > end {
                    return Err(FileError::Container("truncated family metadata"));
                }
                let ghost mid = reader.requests();
                let got = reader.read_at(read_offset, fetch_len);
                proof {
                    crate::reader::lemma_within_push(old(reader).requests(), mid, (read_offset, fetch_len), start as int, end as int, 4096);
                }
                let mut bytes = got?;
                let ghost old_pending = pending@;
                pending.append(&mut bytes);
                proof {
                    assert(pending@.subrange(0, pos as int) =~= old_pending.subrange(0, pos as int));
                    assert(pending@ =~= img.subrange(start as int, fetch_end as int));
                }
                read_offset = fetch_end;
            },
        }
    }
    proof {
        crate::varint::lemma_canonicals_len(values@);
        assert(pending@.subrange(0, pos as int) =~= img.subrange(start as int, start + pos));
    }
    Ok((values, start + pos as u64))
}

/// The records of a family whose directory is `d`, taken from the image
/// at `base` one after another by the directory's lengths.
pub open spec fn image_records(img: Seq<u8>, base: int, d: Seq<u64>, n: nat, k: nat) -> Seq<(Seq<u8>, Seq<u8>)> {
    Seq::new(
        k,
        |j: int|
            {
                let o = base + records_total(d, n, j);
                let p = entry_at(d, n, j, 2);
                let l = entry_at(d, n, j, 1);
                (img.subrange(o, o + p), img.subrange(o + p, o + p + l))
            },
    )
}

/// Records taken from the image one after another are the image's bytes.
pub proof fn lemma_image_records(img: Seq<u8>, base: int, d: Seq<u64>, n: nat, k: nat)
    requires
        0 <= base,
        base + records_total(d, n, k as int) <= img.len(),
    ensures
        records_bytes(image_records(img, base, d, n, k)) == img.subrange(base, base + records_total(d, n, k as int)),
    decreases k,
{
    let rs = image_records(img, base, d, n, k);
    if k == 0 {
        assert(rs =~= Seq::<(Seq<u8>, Seq<u8>)>::empty());
        assert(img.subrange(base, base) =~= Seq::<u8>::empty());
    } else {
        let j = k - 1;
        assert(rs.drop_last() =~= image_records(img, base, d, n, j as nat));
        assert(records_total(d, n, k as int) == records_total(d, n, j) + entry_at(d, n, j, 1) + entry_at(d, n, j, 2));
        lemma_image_records(img, base, d, n, j as nat);
        crate::family::lemma_records_total_mono(d, n, 0, j);
        let o = base + records_total(d, n, j);
        assert(img.subrange(base, base + records_total(d, n, k as int)) =~= img.subrange(base, o) + img.subrange(
            o,
            o + entry_at(d, n, j, 2),
        ) + img.subrange(o + entry_at(d, n, j, 2), o + entry_at(d, n, j, 2) + entry_at(d, n, j, 1)));
    }
}

/// A family payload whose parts were read from the image one by one is
/// the framing of those parts, with the records the image holds between
/// the directory and the trailer.
#[verifier::rlimit(50)]
#[verifier::spinoff_prover]
proof fn lemma_ranged_frame(
    img: Seq<u8>,
    off: int,
    len: int,
    h: Seq<u64>,
    ds: int,
    n: nat,
    d: Seq<u64>,
    rstart: int,
    cursor: int,
    t: Seq<u64>,
)
    requires
        0 <= off,
        0 <= len,
        off + len <= img.len(),
        h.len() == 3,
        off < ds,
        img.subrange(off, ds) == canonicals_bytes(h),
        n == h[0],
        canonicals_bytes(d).len() == h[1],
        img.subrange(ds, ds + h[1]) == canonicals_bytes(d),
        rstart == ds + h[1],
        cursor == rstart + records_total(d, n, 2 * n as int),
        canonicals_bytes(t).len() == h[2],
        cursor + h[2] == off + len,
        img.subrange(cursor, off + len) == canonicals_bytes(t),
        dir_ok(d, n),
        trailer_ok(t, n),
    ensures
        ({
            let f = (n, d, image_records(img, rstart, d, n, 2 * n), t);
            &&& family_wf(f)
            &&& family_wire(f) == img.subrange(off, off + len)
            &&& records_start(f) == rstart - off
        }),
{
    let rs = image_records(img, rstart, d, n, 2 * n);
    let f = (n, d, rs, t);
    let e0 = uvarint_bytes(h[0] as nat);
    let e1 = uvarint_bytes(h[1] as nat);
    let e2 = uvarint_bytes(h[2] as nat);
    let h2 = h.drop_last();
    let h1 = h2.drop_last();
    let h0 = h1.drop_last();
    assert(h0 =~= Seq::<u64>::empty());
    assert(canonicals_bytes(h0) == Seq::<u8>::empty());
    assert(canonicals_bytes(h1) == canonicals_bytes(h0) + uvarint_bytes(h1.last() as nat));
    assert(canonicals_bytes(h2) == canonicals_bytes(h1) + uvarint_bytes(h2.last() as nat));
    assert(canonicals_bytes(h) == canonicals_bytes(h2) + uvarint_bytes(h.last() as nat));
    assert(h1.last() == h[0] && h2.last() == h[1] && h.last() == h[2]);
    assert(canonicals_bytes(h) =~= e0 + e1 + e2);
    crate::family::lemma_records_total_mono(d, n, 0, 2 * n as int);
    assert forall|k: int| 0 <= k < 2 * n implies (#[trigger] rs[k]).0.len() == entry_at(d, n, k, 2)
        && rs[k].1.len() == entry_at(d, n, k, 1) by {
        crate::family::lemma_records_total_mono(d, n, k, k + 1);
        crate::family::lemma_records_total_mono(d, n, k + 1, 2 * n as int);
        crate::family::lemma_records_total_mono(d, n, 0, k);
    }
    assert(family_wf(f));
    lemma_image_records(img, rstart, d, n, 2 * n);
    let sec = img.subrange(off, off + len);
    let p1 = e0.len() as int;
    let p2 = p1 + e1.len();
    let p3 = ds - off;
    let q = rstart - off;
    let after = cursor - off;
    assert(sec.subrange(0, p1) =~= img.subrange(off, ds).subrange(0, p1));
    assert(sec.subrange(p1, p2) =~= img.subrange(off, ds).subrange(p1, p2));
    assert(sec.subrange(p2, p3) =~= img.subrange(off, ds).subrange(p2, p3));
    assert((e0 + e1 + e2).subrange(0, p1) =~= e0);
    assert((e0 + e1 + e2).subrange(p1, p2) =~= e1);
    assert((e0 + e1 + e2).subrange(p2, p3) =~= e2);
    assert(sec.subrange(p3, q) =~= img.subrange(ds, ds + h[1]));
    assert(sec.subrange(q, after) =~= img.subrange(rstart, rstart + records_total(d, n, 2 * n as int)));
    assert(sec.subrange(after, sec.len() as int) =~= img.subrange(cursor, off + len));
    crate::family::lemma_frame_bytes(sec, p1, p2, p3, q, after, f);
}

/// Where one record of a family lies in the file and how it splits.
#[derive(Clone, Copy, Debug)]
pub struct FamilyRecordRef {
    pub offset: u64,
    pub prefix_len: u64,
    pub payload_len: u64,
}

/// A family's framing as read through a range reader: the leading ranges of
/// its tiles, where each of its `2n` records lies, and their synopses.
#[derive(Clone, Debug)]
pub struct RangedFamily {
    pub n: usize,
    pub ranges: Vec<(u32, u32)>,
    pub records: Vec<FamilyRecordRef>,
    pub synopses: Vec<(u32, u32, u32, u32)>,
}

/// Section `sec` of the image is the consistent family framing `f`.
pub open spec fn family_section(img: Seq<u8>, sec: ByteRange, f: FamilyFields) -> bool {
    &&& in_image(img, sec.offset, sec.len)
    &&& family_wf(f)
    &&& family_wire(f) == slice_of(img, sec.offset, sec.len)
}

/// `m` is what the framing `f` of section `sec` tells of its tiles.
pub open spec fn ranged_meta_of(m: RangedFamily, sec: ByteRange, f: FamilyFields) -> bool {
    let (n, d, rs, t) = f;
    &&& m.n == n
    &&& m.ranges@.len() == n
    &&& m.records@.len() == 2 * n
    &&& m.synopses@.len() == 2 * n
    &&& forall|i: int| 0 <= i < n ==> #[trigger] m.ranges@[i] == (fam_min(d, i) as u32, fam_max(d, i) as u32)
    &&& forall|k: int|
        0 <= k < 2 * n ==> {
            &&& #[trigger] m.records@[k].offset == sec.offset + records_start(f) + records_total(d, n, k)
            &&& m.records@[k].prefix_len == entry_at(d, n, k, 2)
            &&& m.records@[k].payload_len == entry_at(d, n, k, 1)
        }
    &&& forall|k: int| 0 <= k < 2 * n ==> #[trigger] m.synopses@[k] == syn_at(t, k)
}

/// Section `sec` of the image is a consistent family framing, and `m` is
/// what it tells of its tiles.
pub open spec fn ranged_family_ok(img: Seq<u8>, sec: ByteRange, m: RangedFamily) -> bool {
    exists|f: FamilyFields| family_section(img, sec, f) && ranged_meta_of(m, sec, f)
}

/// Fields held at the same place are the same fields.
proof fn lemma_fields_unique_upto(img: Seq<u8>, start: u64, end: u64, vs: Seq<u64>, ws: Seq<u64>, i: int)
    requires
        fields_at(img, start, end, vs),
        fields_at(img, start, end, ws),
        vs.len() == ws.len(),
        0 <= i <= vs.len(),
    ensures
        vs.take(i) == ws.take(i),
    decreases i,
{
    if i == 0 {
        assert(vs.take(0) =~= ws.take(0));
    } else {
        let j = i - 1;
        lemma_fields_unique_upto(img, start, end, vs, ws, j);
        lemma_field_at(img, start as int, vs, j);
        lemma_field_at(img, start as int, ws, j);
        let pos = canonicals_bytes(vs.take(j)).len() as int;
        let stream = img.skip(start + pos);
        let mv = uvarint_bytes(vs[j] as nat).len() as int;
        let mw = uvarint_bytes(ws[j] as nat).len() as int;
        assert(stream =~= uvarint_bytes(vs[j] as nat) + stream.skip(mv)) by {
            assert(stream.subrange(0, mv) =~= img.subrange(start + pos, start + pos + mv));
        }
        assert(stream =~= uvarint_bytes(ws[j] as nat) + stream.skip(mw)) by {
            assert(stream.subrange(0, mw) =~= img.subrange(start + pos, start + pos + mw));
        }
        crate::varint::lemma_uvarint_prefix_unique(vs[j] as nat, ws[j] as nat, stream.skip(mv), stream.skip(mw));
        assert(vs.take(i) =~= vs.take(j).push(vs[j]));
        assert(ws.take(i) =~= ws.take(j).push(ws[j]));
    }
}

/// The sizes a ranged read of a family section checks before it reads:
/// the section's end and the tile count fit their fields, and the
/// directory, the trailer and each record fit in a buffer.
pub open spec fn family_sizes_ok(sec: ByteRange, f: FamilyFields) -> bool {
    &&& sec.offset + sec.len <= u64::MAX
    &&& f.0 <= u64::MAX / 80
    &&& canonicals_bytes(f.1).len() <= isize::MAX
    &&& canonicals_bytes(f.3).len() <= isize::MAX
    &&& forall|k: int| 0 <= k < 2 * f.0 ==> #[trigger] entry_at(f.1, f.0, k, 1) + entry_at(f.1, f.0, k, 2) <= isize::MAX
}

/// A family section a ranged read can take the framing of.
pub open spec fn family_ready(img: Seq<u8>, sec: ByteRange) -> bool {
    exists|f: FamilyFields| family_section(img, sec, f) && family_sizes_ok(sec, f)
}

/// The three counts at the front of a family section, and where the
/// directory, the records and the trailer lie.
#[verifier::rlimit(50)]
#[verifier::spinoff_prover]
proof fn lemma_family_front(img: Seq<u8>, sec: ByteRange, f: FamilyFields)
    requires
        family_section(img, sec, f),
        family_sizes_ok(sec, f),
    ensures
        ({
            let dl = canonicals_bytes(f.1).len();
            let tl = canonicals_bytes(f.3).len();
            let vs = seq![f.0 as u64, dl as u64, tl as u64];
            let h = canonicals_bytes(vs).len();
            let off = sec.offset as int;
            &&& fields_at(img, sec.offset, (sec.offset + sec.len) as u64, vs)
            &&& 8 * f.0 <= dl <= 80 * f.0
            &&& 8 * f.0 <= tl <= 80 * f.0
            &&& f.1.len() == 8 * f.0
            &&& f.3.len() == 8 * f.0
            &&& img.subrange(off + h, off + h + dl) == canonicals_bytes(f.1)
            &&& records_start(f) == h + dl
            &&& off + h + dl + records_total(f.1, f.0, 2 * f.0 as int) + tl == off + sec.len
            &&& img.subrange(off + h + dl + records_total(f.1, f.0, 2 * f.0 as int), off + sec.len) == canonicals_bytes(f.3)
        }),
{
    let (n, d, rs, t) = f;
    crate::family::lemma_wire_layout(f);
    crate::family::lemma_records_len(rs, d, n);
    crate::varint::lemma_canonicals_len(d);
    crate::varint::lemma_canonicals_len(t);
    let dl = canonicals_bytes(d).len();
    let tl = canonicals_bytes(t).len();
    let vs = seq![n as u64, dl as u64, tl as u64];
    let e0 = uvarint_bytes(n);
    let e1 = uvarint_bytes(dl);
    let e2 = uvarint_bytes(tl);
    let h2 = vs.drop_last();
    let h1 = h2.drop_last();
    let h0 = h1.drop_last();
    assert(h0 =~= Seq::<u64>::empty());
    assert(canonicals_bytes(h0) == Seq::<u8>::empty());
    assert(canonicals_bytes(h1) == canonicals_bytes(h0) + uvarint_bytes(h1.last() as nat));
    assert(canonicals_bytes(h2) == canonicals_bytes(h1) + uvarint_bytes(h2.last() as nat));
    assert(canonicals_bytes(vs) == canonicals_bytes(h2) + uvarint_bytes(vs.last() as nat));
    assert(canonicals_bytes(vs) =~= e0 + e1 + e2);
    let w = family_wire(f);
    let h = canonicals_bytes(vs).len() as int;
    assert(w.subrange(0, h) =~= e0 + e1 + e2);
    let off = sec.offset as int;
    assert(img.subrange(off, off + h) =~= w.subrange(0, h));
    assert(img.subrange(off + h, off + h + dl) =~= w.subrange(h, h + dl));
    let rt = records_total(d, n, 2 * n as int);
    assert(img.subrange(off + h + dl + rt, off + sec.len) =~= w.subrange(h + dl + rt, w.len() as int));
}

/// Read a family section's framing through a range reader: its three
/// counts, its directory and its synopsis trailer, with no record read.
#[verifier::rlimit(100)]
#[verifier::spinoff_prover]
pub(crate) fn read_family_directory_ranged<R: RangeReader>(reader: &mut R, section: ByteRange) -> (r: Result<
    RangedFamily,
    FileError,
>)
    ensures
        same_source(*final(reader), *old(reader)),
        r matches Ok(m) ==> ranged_family_ok(old(reader).image(), section, m),
        old(reader).reliable() && family_ready(old(reader).image(), section) ==> r is Ok,
        reads_within(
            old(reader).requests(),
            final(reader).requests(),
            section.offset as int,
            section.offset + section.len,
            u64::MAX as int,
        ),
        section.offset + section.len > u64::MAX ==> r == Err::<RangedFamily, FileError>(
            FileError::Container("section range overflows"),
        ),
{
    let ghost img = reader.image();
    let ghost ready = reader.reliable() && family_ready(img, section);
    let ghost f = choose|f: FamilyFields| family_section(img, section, f) && family_sizes_ok(section, f);
    let ghost vs = seq![f.0 as u64, canonicals_bytes(f.1).len() as u64, canonicals_bytes(f.3).len() as u64];
    proof {
        if ready {
            lemma_family_front(img, section, f);
        }
    }
    let end = checked_end(section.offset, section.len)?;
    proof {
        if ready {
            assert(fields_at(img, section.offset, end, vs));
        }
    }
    let got = read_family_fields_exact(reader, section.offset, end, 3);
    proof {
        crate::reader::lemma_within_widen(old(reader).requests(), reader.requests(), seq![], section.offset as int, end as int, 4096, section.offset as int, end as int, u64::MAX as int);
    }
    let (header, directory_start) = got?;
    proof {
        if ready {
            assert(fields_at(img, section.offset, end, header@));
            lemma_fields_unique_upto(img, section.offset, end, header@, vs, 3);
            assert(header@.take(3) =~= header@);
            assert(vs.take(3) =~= vs);
            assert(header@ =~= vs);
            assert(img.subrange(section.offset as int, directory_start as int).len() == directory_start - section.offset);
            assert(directory_start == section.offset + canonicals_bytes(vs).len());
            assert(records_total(f.1, f.0, 2 * f.0 as int) >= 0) by {
                crate::family::lemma_records_total_mono(f.1, f.0, 0, 2 * f.0 as int);
            }
        }
    }
    let count = header[0];
    let dir_len = header[1];
    let trailer_len = header[2];
    if count > u64::MAX / 80 {
        return Err(FileError::Container("family directory field count overflows"));
    }
    let minimum = count * 8;
    if dir_len < minimum {
        return Err(FileError::Container("family tile count exceeds directory"));
    }
    if trailer_len < minimum {
        return Err(FileError::Container("family tile count exceeds trailer"));
    }
    if dir_len > minimum * 10 {
        return Err(FileError::Container("family directory exceeds varint framing"));
    }
    if trailer_len > minimum * 10 {
        return Err(FileError::Container("family trailer exceeds varint framing"));
    }
    if dir_len > isize::MAX as u64 {
        return Err(FileError::Container("family directory too large"));
    }
    if trailer_len > isize::MAX as u64 {
        return Err(FileError::Container("family trailer too large"));
    }
    let n = count as usize;
    let records_start = checked_end(directory_start, dir_len)?;
    if records_start > end {
        return Err(FileError::Container("truncated family directory"));
    }
    let ghost mid = reader.requests();
    let got = reader.read_at(directory_start, dir_len);
    proof {
        crate::reader::lemma_within_push(old(reader).requests(), mid, (directory_start, dir_len), section.offset as int, end as int, u64::MAX as int);
    }
    let dir = got?;
    proof {
        if ready {
            assert(dir@.subrange(0, canonicals_bytes(f.1).len() as int) =~= canonicals_bytes(f.1));
        }
    }
    let (d, dend) = match read_canonical_run(dir.as_slice(), 0, 8 * n) {
        Some(x) => x,
        None => return Err(FileError::Container("truncated family metadata")),
    };
    if dend != dir.len() {
        return Err(FileError::Container("trailing family metadata bytes"));
    }
    let ranges = validate_directory(&d, n)?;
    let mut records: Vec<FamilyRecordRef> = Vec::new();
    let mut cursor = records_start;
    let mut k: usize = 0;
    while k < 2 * n
        invariant
            same_source(*reader, *old(reader)),
            d@.len() == 8 * n,
            8 * n <= isize::MAX,
            k <= 2 * n,
            records@.len() == k,
            cursor == records_start + records_total(d@, n as nat, k as int),
            cursor >= records_start,
            records_start >= section.offset,
            reads_within(old(reader).requests(), reader.requests(), section.offset as int, end as int, u64::MAX as int),
            ready == (reader.reliable() && family_ready(img, section)),
            img == reader.image(),
            end == section.offset + section.len,
            ready ==> d@ == f.1 && n == f.0 && family_sizes_ok(section, f),
            ready ==> records_start + records_total(d@, n as nat, 2 * n as int) <= end,
            forall|j: int|
                0 <= j < k ==> {
                    &&& #[trigger] records@[j].offset == records_start + records_total(d@, n as nat, j)
                    &&& records@[j].prefix_len == entry_at(d@, n as nat, j, 2)
                    &&& records@[j].payload_len == entry_at(d@, n as nat, j, 1)
                },
        decreases 2 * n - k,
    {
        let p2 = d[2 * n + 3 * k + 2];
        let pl = d[2 * n + 3 * k + 1];
        proof {
            if ready {
                assert(entry_at(f.1, f.0, k as int, 1) + entry_at(f.1, f.0, k as int, 2) <= isize::MAX);
                crate::family::lemma_records_total_mono(d@, n as nat, k + 1, 2 * n as int);
            }
        }
        let len = checked_end(p2, pl)?;
        if len > isize::MAX as u64 {
            return Err(FileError::Container("family payload too large"));
        }
        records.push(FamilyRecordRef { offset: cursor, prefix_len: p2, payload_len: pl });
        cursor = checked_end(cursor, len)?;
        k = k + 1;
    }
    let trailer_end = checked_end(cursor, trailer_len)?;
    if trailer_end != end {
        return Err(FileError::Container("family record lengths disagree with framing"));
    }
    let ghost mid2 = reader.requests();
    let got = reader.read_at(cursor, trailer_len);
    proof {
        crate::reader::lemma_within_push(old(reader).requests(), mid2, (cursor, trailer_len), section.offset as int, end as int, u64::MAX as int);
    }
    let tb = got?;
    proof {
        if ready {
            assert(tb@.subrange(0, canonicals_bytes(f.3).len() as int) =~= canonicals_bytes(f.3));
        }
    }
    let (t, tend) = match read_canonical_run(tb.as_slice(), 0, 8 * n) {
        Some(x) => x,
        None => return Err(FileError::Container("truncated family metadata")),
    };
    if tend != tb.len() {
        return Err(FileError::Container("trailing family metadata bytes"));
    }
    let synopses = read_synopses(&t, n)?;
    let ghost fr = (n as nat, d@, image_records(img, records_start as int, d@, n as nat, 2 * n as nat), t@);
    proof {
        assert(dir@.subrange(0, dend as int) =~= dir@);
        assert(tb@.subrange(0, tend as int) =~= tb@);
        lemma_ranged_frame(
            img,
            section.offset as int,
            section.len as int,
            header@,
            directory_start as int,
            n as nat,
            d@,
            records_start as int,
            cursor as int,
            t@,
        );
        assert(family_section(img, section, fr));
    }
    let m = RangedFamily { n, ranges, records, synopses };
    proof {
        assert(crate::family::records_start(fr) == records_start - section.offset);
        assert forall|k: int| 0 <= k < 2 * n implies {
            &&& #[trigger] m.records@[k].offset == section.offset + crate::family::records_start(fr) + records_total(fr.1, fr.0, k)
            &&& m.records@[k].prefix_len == entry_at(fr.1, fr.0, k, 2)
            &&& m.records@[k].payload_len == entry_at(fr.1, fr.0, k, 1)
        } by {
        }
        assert(ranged_meta_of(m, section, fr));
        assert(ranged_family_ok(img, section, m));
    }
    Ok(m)
}

/// The records of a consistent family section are the image's bytes
/// between its directory and its trailer.
pub proof fn lemma_section_records(img: Seq<u8>, sec: ByteRange, f: FamilyFields)
    requires
        family_section(img, sec, f),
    ensures
        f.2 == image_records(img, sec.offset + records_start(f), f.1, f.0, 2 * f.0),
{
    let (n, d, rs, t) = f;
    crate::family::lemma_wire_layout(f);
    crate::family::lemma_records_len(rs, d, n);
    let base = sec.offset + records_start(f);
    let total = records_total(d, n, 2 * n as int);
    let w = family_wire(f);
    let start = records_start(f);
    assert(w.subrange(start, start + total) =~= img.subrange(base, base + total));
    lemma_image_records(img, base, d, n, 2 * n);
    let ir = image_records(img, base, d, n, 2 * n);
    crate::family::lemma_records_total_mono(d, n, 0, 2 * n as int);
    assert forall|k: int| 0 <= k < rs.len() implies (#[trigger] rs[k]).0.len() == ir[k].0.len() && rs[k].1.len()
        == ir[k].1.len() by {
        crate::family::lemma_records_total_mono(d, n, k, k + 1);
        crate::family::lemma_records_total_mono(d, n, k + 1, 2 * n as int);
        crate::family::lemma_records_total_mono(d, n, 0, k);
    }
    crate::family::lemma_records_unique(rs, ir);
}

/// The pattern's bounds in slot `k`'s column order.
pub open spec fn ordered_pattern(k: int, pat: Pattern) -> (Option<u32>, Option<u32>, Option<u32>) {
    let (s, p, o) = pat;
    if k == 0 {
        (s, p, o)
    } else if k == 1 {
        (p, o, s)
    } else if k == 2 {
        (o, s, p)
    } else if k == 3 {
        (s, o, p)
    } else if k == 4 {
        (p, s, o)
    } else {
        (o, p, s)
    }
}

/// Whether bound `b`, when there is one, lies in `[lo, hi]`.
pub open spec fn within(b: Option<u32>, lo: int, hi: int) -> bool {
    match b {
        Some(x) => lo <= x <= hi,
        None => true,
    }
}

/// Whether tile `i` of the sibling whose records start at `base` can hold
/// a match: each bound column of the pattern lies in the tile's range for
/// that column.
pub open spec fn family_admits(f: FamilyFields, base: int, i: int, k: int, pat: Pattern) -> bool {
    let (pa, pb, pc) = ordered_pattern(k, pat);
    let (lb, hb, lc, hc) = syn_at(f.3, base + i);
    within(pa, fam_min(f.1, i), fam_max(f.1, i)) && within(pb, lb as int, hb as int) && within(pc, lc as int, hc as int)
}

/// Pruning is sound: a tile whose leading range and synopsis ranges hold
/// every column of a triple matching the pattern (in slot `k`'s column
/// order) is admitted, so a record is skipped only when none of the triples
/// its ranges allow can match.
pub proof fn lemma_family_admits_matches(f: FamilyFields, base: int, i: int, k: int, pat: Pattern, t: Triple)
    requires
        0 <= k < 6,
        crate::index::matches(pat, t),
        fam_min(f.1, i) <= crate::index::permute(k, t).0 <= fam_max(f.1, i),
        syn_at(f.3, base + i).0 <= crate::index::permute(k, t).1 <= syn_at(f.3, base + i).1,
        syn_at(f.3, base + i).2 <= crate::index::permute(k, t).2 <= syn_at(f.3, base + i).3,
    ensures
        family_admits(f, base, i, k, pat),
{
}

/// The triples record `j` of a family holds.
pub open spec fn record_triples(f: FamilyFields, codec: u8, j: int) -> Seq<Triple> {
    match family_tile(codec, f.2[j].1) {
        Some(tb) => tile_triples_or_empty(tb),
        None => seq![],
    }
}

/// The matches in the first `cnt` admitted tiles of the sibling whose
/// records start at `base`; none when an admitted record is not valid.
pub open spec fn family_matches(f: FamilyFields, codec: u8, base: int, cnt: int, k: int, pat: Pattern) -> Option<
    Seq<Triple>,
>
    decreases cnt,
{
    if cnt <= 0 {
        Some(seq![])
    } else {
        match family_matches(f, codec, base, cnt - 1, k, pat) {
            None => None,
            Some(m) => if !family_admits(f, base, cnt - 1, k, pat) {
                Some(m)
            } else if record_ok(f, codec, base + cnt - 1) {
                Some(m + run_matches(k, record_triples(f, codec, base + cnt - 1), pat))
            } else {
                None
            },
        }
    }
}

/// Where the records of slot `k`'s sibling start among a family's `2n`.
pub open spec fn sibling_base(n: nat, k: int) -> int {
    if k >= 3 {
        n as int
    } else {
        0
    }
}

fn bound_within(b: Option<u32>, lo: u32, hi: u32) -> (r: bool)
    ensures
        r == within(b, lo as int, hi as int),
{
    match b {
        Some(x) => lo <= x && x <= hi,
        None => true,
    }
}

fn order_pattern(k: usize, pat: Pattern) -> (r: (Option<u32>, Option<u32>, Option<u32>))
    ensures
        r == ordered_pattern(k as int, pat),
{
    let (s, p, o) = pat;
    if k == 0 {
        (s, p, o)
    } else if k == 1 {
        (p, o, s)
    } else if k == 2 {
        (o, s, p)
    } else if k == 3 {
        (s, o, p)
    } else if k == 4 {
        (p, s, o)
    } else {
        (o, p, s)
    }
}

/// A family section whose admitted records a ranged read can fetch and
/// check: a consistent framing of checkable sizes whose every record the
/// pattern admits in slot `k`'s sibling is valid.
pub open spec fn family_fetch_ready(img: Seq<u8>, sec: ByteRange, codec: u8, k: int, pat: Pattern) -> bool {
    exists|f: FamilyFields|
        family_section(img, sec, f) && family_sizes_ok(sec, f) && family_matches(
            f,
            codec,
            sibling_base(f.0, k),
            f.0 as int,
            k,
            pat,
        ) is Some
}

/// Matches that exist for a sibling's first `cnt` tiles exist for fewer.
proof fn lemma_family_matches_prefix(f: FamilyFields, codec: u8, base: int, cnt: int, k: int, pat: Pattern, j: int)
    requires
        family_matches(f, codec, base, cnt, k, pat) is Some,
        0 <= j <= cnt,
    ensures
        family_matches(f, codec, base, j, k, pat) is Some,
    decreases cnt - j,
{
    if j < cnt {
        lemma_family_matches_prefix(f, codec, base, cnt - 1, k, pat, j);
    }
}

/// `out` is, sorted, the matches a family section `sec` holds for a pattern
/// routed to slot `k`.
pub open spec fn family_answer(img: Seq<u8>, sec: ByteRange, codec: u8, k: int, pat: Pattern, out: Seq<Triple>) -> bool {
    exists|f: FamilyFields|
        {
            &&& family_section(img, sec, f)
            &&& family_matches(f, codec, sibling_base(f.0, k), f.0 as int, k, pat) matches Some(m)
            &&& nondecreasing(out)
            &&& out.to_multiset() == m.to_multiset()
        }
}

/// The matches of a pattern routed to slot `k` of a family section: only
/// the records whose leading range and synopsis admit the pattern are
/// read, each checked against its directory entry, and the matches sorted.
#[verifier::rlimit(100)]
#[verifier::spinoff_prover]
pub(crate) fn fetch_family_matches<R: RangeReader>(
    reader: &mut R,
    fam: &RangedFamily,
    section: ByteRange,
    codec: u8,
    k: usize,
    pat: Pattern,
) -> (r: Result<Vec<Triple>, FileError>)
    requires
        k < 6,
        ranged_family_ok(old(reader).image(), section, *fam),
    ensures
        same_source(*final(reader), *old(reader)),
        r matches Ok(out) ==> family_answer(old(reader).image(), section, codec, k as int, pat, out@),
        old(reader).reliable() && family_fetch_ready(old(reader).image(), section, codec, k as int, pat) ==> r is Ok,
{
    let ghost img = reader.image();
    let ghost f = choose|f: FamilyFields| family_section(img, section, f) && ranged_meta_of(*fam, section, f);
    let ghost ready = reader.reliable() && family_fetch_ready(img, section, codec, k as int, pat);
    proof {
        lemma_section_records(img, section, f);
        crate::family::lemma_wire_layout(f);
        crate::family::lemma_records_len(f.2, f.1, f.0);
        if ready {
            let g = choose|g: FamilyFields|
                family_section(img, section, g) && family_sizes_ok(section, g) && family_matches(
                    g,
                    codec,
                    sibling_base(g.0, k as int),
                    g.0 as int,
                    k as int,
                    pat,
                ) is Some;
            crate::family::lemma_wire_unique(f, g);
        }
    }
    let n = fam.n;
    let base: usize = if k >= 3 { n } else { 0 };
    let (pa, pb, pc) = order_pattern(k, pat);
    let mut out: Vec<Triple> = Vec::new();
    let slen = fam.synopses.len();
    let mut i: usize = 0;
    while i < n
        invariant
            same_source(*reader, *old(reader)),
            slen == fam.synopses@.len(),
            img == reader.image(),
            family_section(img, section, f),
            ranged_meta_of(*fam, section, f),
            f.2 == image_records(img, section.offset + records_start(f), f.1, f.0, 2 * f.0),
            n == fam.n,
            k < 6,
            base == sibling_base(n as nat, k as int),
            (pa, pb, pc) == ordered_pattern(k as int, pat),
            i <= n,
            family_matches(f, codec, base as int, i as int, k as int, pat) == Some(out@),
            ready == (reader.reliable() && family_fetch_ready(img, section, codec, k as int, pat)),
            ready ==> family_sizes_ok(section, f) && family_matches(f, codec, base as int, n as int, k as int, pat)
                is Some,
            records_start(f) + records_total(f.1, f.0, 2 * f.0 as int) <= section.len,
        decreases n - i,
    {
        let (lo, hi) = fam.ranges[i];
        let syn = fam.synopses[base + i];
        let rec = fam.records[base + i];
        proof {
            crate::family::lemma_fam_min_nonneg(f.1, i as int);
            assert(fam.ranges@[i as int] == (fam_min(f.1, i as int) as u32, fam_max(f.1, i as int) as u32));
            assert(fam_max(f.1, i as int) <= u32::MAX);
            assert(fam.synopses@[base + i] == syn_at(f.3, base + i));
        }
        let admitted = bound_within(pa, lo, hi) && bound_within(pb, syn.0, syn.1) && bound_within(pc, syn.2, syn.3);
        proof {
            assert(admitted == family_admits(f, base as int, i as int, k as int, pat));
        }
        proof {
            if ready {
                lemma_family_matches_prefix(f, codec, base as int, n as int, k as int, pat, i + 1);
                crate::family::lemma_records_total_mono(f.1, f.0, base + i + 1, 2 * f.0 as int);
                assert(entry_at(f.1, f.0, base + i, 1) + entry_at(f.1, f.0, base + i, 2) <= isize::MAX);
                assert(fam.records@[base + i].offset == section.offset + records_start(f) + records_total(
                    f.1,
                    f.0,
                    base + i,
                ));
                assert(rec.prefix_len == entry_at(f.1, f.0, base + i, 2));
                assert(rec.payload_len == entry_at(f.1, f.0, base + i, 1));
            }
        }
        if admitted {
            let total = checked_end(rec.prefix_len, rec.payload_len)?;
            if total > isize::MAX as u64 {
                return Err(FileError::Container("family payload too large"));
            }
            let blob = reader.read_at(rec.offset, total)?;
            let p2 = rec.prefix_len as usize;
            let prefix = vstd::slice::slice_to_vec(vstd::slice::slice_subrange(blob.as_slice(), 0, p2));
            let payload = vstd::slice::slice_to_vec(vstd::slice::slice_subrange(blob.as_slice(), p2, total as usize));
            let j = base + i;
            proof {
                let o = section.offset + records_start(f) + records_total(f.1, f.0, j as int);
                assert(rec.offset == o);
                assert(rec.prefix_len == entry_at(f.1, f.0, j as int, 2));
                assert(rec.payload_len == entry_at(f.1, f.0, j as int, 1));
                assert(prefix@ =~= img.subrange(o, o + rec.prefix_len));
                assert(payload@ =~= img.subrange(o + rec.prefix_len, o + rec.prefix_len + rec.payload_len));
                assert(f.2[j as int] == (prefix@, payload@));
                assert(crate::family::sib(f.0, j as int) == i);
            }
            let (_meta, tile) = check_record(codec, &prefix, &payload, lo, hi, syn)?;
            let ms = tile_matches(k, tile.bytes.as_slice(), pat);
            proof {
                assert(record_ok(f, codec, j as int));
                assert(ms@ == run_matches(k as int, record_triples(f, codec, j as int), pat));
            }
            let mut ms2 = ms;
            out.append(&mut ms2);
        }
        i = i + 1;
    }
    let ghost m = out@;
    let sorted = sort_triples(out);
    proof {
        assert(family_matches(f, codec, sibling_base(f.0, k as int), f.0 as int, k as int, pat) == Some(m));
        assert(family_answer(img, section, codec, k as int, pat, sorted@));
    }
    Ok(sorted)
}

} // verus!
