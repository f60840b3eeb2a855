//! Range reads: the source a reader fetches byte ranges of a file image from,
//! and the card-tier reads that fetch only the header and one more range.
use vstd::prelude::*;

use crate::codec::FileError;
use crate::header::{header_view, spec_parse_header, Header, HeaderView, HEADER_LEN};
use crate::image::{
    in_image, slice_of, F_BUILD_LEN, F_BUILD_OFF, F_META_LEN, F_META_OFF, F_TEXT_LEN, F_TEXT_OFF,
};
use crate::varint::{read_uvarint, spec_read_uvarint};

verus! {

/// A source of byte ranges of one file image (a local buffer, a file, an
/// HTTP resource). Implementations promise that what a successful read
/// returns is that range of the image; a read may fail, except that a
/// reliable reader (an in-memory one, say) serves every range inside the
/// image. Every read is recorded, in order, in the reader's request log.
pub trait RangeReader {
    /// The file image this reader serves.
    spec fn image(&self) -> Seq<u8>;

    /// Whether every read of a range inside the image succeeds.
    spec fn reliable(&self) -> bool;

    /// The (offset, length) ranges requested so far, in order.
    spec fn requests(&self) -> Seq<(u64, u64)>;

    /// The `len` bytes at `offset`.
    fn read_at(&mut self, offset: u64, len: u64) -> (r: Result<Vec<u8>, FileError>)
        ensures
            final(self).image() == old(self).image(),
            final(self).reliable() == old(self).reliable(),
            final(self).requests() == old(self).requests().push((offset, len)),
            r matches Ok(v) ==> offset + len <= old(self).image().len() && v@ == old(self).image().subrange(
                offset as int,
                offset + len,
            ),
            old(self).reliable() && offset + len <= old(self).image().len() ==> r is Ok,
    ;
}

/// Two states of a reader serve the same image, equally reliably.
pub open spec fn same_source<R: RangeReader>(a: R, b: R) -> bool {
    a.image() == b.image() && a.reliable() == b.reliable()
}

/// The request log `new` is `old` followed by the first few of the planned
/// reads `plan`, in order (all of them when a read sequence ran to the end).
#[verifier::opaque]
pub open spec fn logged_prefix(old: Seq<(u64, u64)>, new: Seq<(u64, u64)>, plan: Seq<(u64, u64)>) -> bool {
    &&& old.len() <= new.len() <= old.len() + plan.len()
    &&& forall|i: int| 0 <= i < old.len() ==> #[trigger] new[i] == old[i]
    &&& forall|i: int| old.len() <= i < new.len() ==> #[trigger] new[i] == plan[i - old.len()]
}

/// The request log `new` is `old` followed by every read of `plan`.
pub open spec fn logged_all(old: Seq<(u64, u64)>, new: Seq<(u64, u64)>, plan: Seq<(u64, u64)>) -> bool {
    logged_prefix(old, new, plan) && new.len() == old.len() + plan.len()
}

/// A read lies inside `[lo, hi)` and takes at most `max` bytes.
pub open spec fn read_in(q: (u64, u64), lo: int, hi: int, max: int) -> bool {
    lo <= q.0 && q.0 + q.1 <= hi && q.1 <= max
}

/// The request log `new` is `old` followed by the planned reads `plan` (or
/// the first few of them) and, once all of those are made, further reads
/// that each lie inside `[lo, hi)` and take at most `max` bytes.
pub open spec fn log_follows(
    old: Seq<(u64, u64)>,
    new: Seq<(u64, u64)>,
    plan: Seq<(u64, u64)>,
    lo: int,
    hi: int,
    max: int,
) -> bool {
    &&& old.len() <= new.len()
    &&& forall|i: int| 0 <= i < old.len() ==> #[trigger] new[i] == old[i]
    &&& forall|i: int|
        old.len() <= i < new.len() ==> (i < old.len() + plan.len() ==> #[trigger] new[i] == plan[i - old.len()]) && (
        old.len() + plan.len() <= i ==> read_in(new[i], lo, hi, max))
}

/// The request log `new` is `old` followed by reads that each lie inside
/// `[lo, hi)` and take at most `max` bytes.
pub open spec fn reads_within(old: Seq<(u64, u64)>, new: Seq<(u64, u64)>, lo: int, hi: int, max: int) -> bool {
    log_follows(old, new, seq![], lo, hi, max)
}

/// Reads that follow a plan and then stay in a range, followed by more reads
/// in that range, still do.
pub proof fn lemma_follows_within(
    a: Seq<(u64, u64)>,
    b: Seq<(u64, u64)>,
    c: Seq<(u64, u64)>,
    p: Seq<(u64, u64)>,
    lo: int,
    hi: int,
    max: int,
)
    requires
        log_follows(a, b, p, lo, hi, max),
        b.len() >= a.len() + p.len(),
        reads_within(b, c, lo, hi, max),
    ensures
        log_follows(a, c, p, lo, hi, max),
{
    assert forall|i: int| a.len() <= i < c.len() implies (i < a.len() + p.len() ==> #[trigger] c[i] == p[i - a.len()]) && (a.len()
        + p.len() <= i ==> read_in(c[i], lo, hi, max)) by {
        if i < b.len() {
            assert(c[i] == b[i]);
        }
    }
    assert forall|i: int| 0 <= i < a.len() implies #[trigger] c[i] == a[i] by {
        assert(c[i] == b[i]);
    }
}

/// One more read inside the range keeps a run of reads inside it.
pub proof fn lemma_within_push(
    a: Seq<(u64, u64)>,
    b: Seq<(u64, u64)>,
    q: (u64, u64),
    lo: int,
    hi: int,
    max: int,
)
    requires
        reads_within(a, b, lo, hi, max),
        read_in(q, lo, hi, max),
    ensures
        reads_within(a, b.push(q), lo, hi, max),
{
    assert forall|i: int| a.len() <= i < b.push(q).len() implies read_in(#[trigger] b.push(q)[i], lo, hi, max) by {
        if i < b.len() {
            assert(b.push(q)[i] == b[i]);
        }
    }
    assert forall|i: int| 0 <= i < a.len() implies #[trigger] b.push(q)[i] == a[i] by {
        assert(b.push(q)[i] == b[i]);
    }
}

/// Reads inside a range are reads inside any range around it.
pub proof fn lemma_within_widen(
    a: Seq<(u64, u64)>,
    b: Seq<(u64, u64)>,
    p: Seq<(u64, u64)>,
    lo: int,
    hi: int,
    max: int,
    lo2: int,
    hi2: int,
    max2: int,
)
    requires
        log_follows(a, b, p, lo, hi, max),
        lo2 <= lo,
        hi <= hi2,
        max <= max2,
    ensures
        log_follows(a, b, p, lo2, hi2, max2),
{
}

/// A finished run of planned reads followed by a run of a second plan is a
/// run of the two plans one after the other.
pub proof fn lemma_logged_concat(
    a: Seq<(u64, u64)>,
    b: Seq<(u64, u64)>,
    c: Seq<(u64, u64)>,
    p: Seq<(u64, u64)>,
    q: Seq<(u64, u64)>,
)
    requires
        logged_all(a, b, p),
        logged_prefix(b, c, q),
    ensures
        logged_prefix(a, c, p + q),
        logged_all(b, c, q) ==> logged_all(a, c, p + q),
{
    reveal(logged_prefix);
    assert forall|i: int| a.len() <= i < c.len() implies #[trigger] c[i] == (p + q)[i - a.len()] by {
        if i < b.len() {
            assert(c[i] == b[i]);
        }
    }
}

/// Having made the reads `done` of a plan `done + rest` is a run of some of
/// that plan, and of all of it when nothing is left.
pub proof fn lemma_logged_split(old: Seq<(u64, u64)>, done: Seq<(u64, u64)>, rest: Seq<(u64, u64)>)
    ensures
        logged_prefix(old, old + done, done + rest),
        rest.len() == 0 ==> logged_all(old, old + done, done + rest),
{
    reveal(logged_prefix);
    assert forall|i: int| old.len() <= i < (old + done).len() implies #[trigger] (old + done)[i] == (done + rest)[i
        - old.len()] by {}
}

/// A run of some of the planned reads is a run of some of a longer plan.
pub proof fn lemma_logged_more(a: Seq<(u64, u64)>, b: Seq<(u64, u64)>, p: Seq<(u64, u64)>, q: Seq<(u64, u64)>)
    requires
        logged_prefix(a, b, p),
    ensures
        logged_prefix(a, b, p + q),
{
    reveal(logged_prefix);
    assert forall|i: int| a.len() <= i < b.len() implies #[trigger] b[i] == (p + q)[i - a.len()] by {}
}

/// A range reader over a file image held in memory, with its request log.
pub struct MemReader {
    pub bytes: Vec<u8>,
    pub log: Vec<(u64, u64)>,
}

impl MemReader {
    /// A reader over `bytes` that has served no request yet.
    pub fn new(bytes: Vec<u8>) -> (r: MemReader)
        ensures
            r.bytes@ == bytes@,
            r.log@.len() == 0,
    {
        MemReader { bytes, log: Vec::new() }
    }
}

impl RangeReader for MemReader {
    open spec fn image(&self) -> Seq<u8> {
        self.bytes@
    }

    open spec fn reliable(&self) -> bool {
        true
    }

    open spec fn requests(&self) -> Seq<(u64, u64)> {
        self.log@
    }

    fn read_at(&mut self, offset: u64, len: u64) -> (r: Result<Vec<u8>, FileError>)
        ensures
            offset + len <= old(self).bytes@.len() <==> r is Ok,
    {
        self.log.push((offset, len));
        if offset > self.bytes.len() as u64 || len > self.bytes.len() as u64 - offset {
            return Err(FileError::Io);
        }
        let s = vstd::slice::slice_subrange(
            self.bytes.as_slice(),
            offset as usize,
            (offset + len) as usize,
        );
        Ok(vstd::slice::slice_to_vec(s))
    }
}

/// Read and decode the header through a range reader: one read, of the
/// header's bytes.
pub fn read_header<R: RangeReader>(reader: &mut R) -> (r: Result<Header, FileError>)
    ensures
        same_source(*final(reader), *old(reader)),
        final(reader).requests() == old(reader).requests().push((0u64, HEADER_LEN as u64)),
        r matches Ok(h) ==> spec_parse_header(old(reader).image()) == Some(header_view(h)),
        old(reader).reliable() ==> (r is Ok <==> spec_parse_header(old(reader).image()) is Some),
{
    let ghost img = reader.image();
    let head = reader.read_at(0, HEADER_LEN as u64)?;
    match Header::from_bytes(head.as_slice()) {
        Ok(h) => {
            proof {
                crate::header::lemma_parse_header_prefix(head@, img.subrange(HEADER_LEN as int, img.len() as int));
                assert(img =~= head@ + img.subrange(HEADER_LEN as int, img.len() as int));
            }
            Ok(h)
        },
        Err(e) => {
            proof {
                crate::header::lemma_parse_header_prefix(head@, img.subrange(HEADER_LEN as int, img.len() as int));
                assert(img =~= head@ + img.subrange(HEADER_LEN as int, img.len() as int));
            }
            Err(FileError::Header(e))
        },
    }
}

/// The section of `len` bytes at `off`, or `None` for an empty section.
pub open spec fn optional_section(img: Seq<u8>, off: u64, len: u64) -> Option<Seq<u8>> {
    if len == 0 {
        None
    } else {
        Some(slice_of(img, off, len))
    }
}

/// Whether an optional section read back is the section of the image.
pub open spec fn read_back(got: Option<Vec<u8>>, img: Seq<u8>, off: u64, len: u64) -> bool {
    match optional_section(img, off, len) {
        None => got is None,
        Some(s) => got matches Some(x) && x@ == s && in_image(img, off, len),
    }
}

/// An optional section is absent or lies inside the image.
pub open spec fn section_ok(img: Seq<u8>, off: u64, len: u64) -> bool {
    len == 0 || in_image(img, off, len)
}

/// The header parses and the metadata section it locates is absent or
/// inside the image.
pub open spec fn meta_readable(img: Seq<u8>) -> bool {
    spec_parse_header(img) matches Some(v) && section_ok(img, v.2[F_META_OFF as int], v.2[F_META_LEN as int])
}

/// The header parses and the metadata and build-information sections it
/// locates are absent or inside the image.
pub open spec fn card_readable(img: Seq<u8>) -> bool {
    spec_parse_header(img) matches Some(v) && section_ok(img, v.2[F_META_OFF as int], v.2[F_META_LEN as int])
        && section_ok(img, v.2[F_BUILD_OFF as int], v.2[F_BUILD_LEN as int])
}

/// The planned read of an optional section: none for an empty one.
pub open spec fn opt_plan(off: u64, len: u64) -> Seq<(u64, u64)> {
    if len == 0 {
        seq![]
    } else {
        seq![(off, len)]
    }
}

/// The reads [`read_metadata_ranged`] makes: the header, then the metadata
/// range when the header locates a non-empty one.
pub open spec fn meta_plan(img: Seq<u8>) -> Seq<(u64, u64)> {
    seq![(0u64, HEADER_LEN as u64)] + match spec_parse_header(img) {
        Some(v) => opt_plan(v.2[F_META_OFF as int], v.2[F_META_LEN as int]),
        None => seq![],
    }
}

/// Fetch only the metadata section (the opaque dataset card) through a range
/// reader: the header, then the metadata range, nothing else. `None` when the
/// file carries no metadata.
pub fn read_metadata_ranged<R: RangeReader>(reader: &mut R) -> (r: Result<Option<Vec<u8>>, FileError>)
    ensures
        same_source(*final(reader), *old(reader)),
        logged_prefix(old(reader).requests(), final(reader).requests(), meta_plan(old(reader).image())),
        r is Ok ==> logged_all(old(reader).requests(), final(reader).requests(), meta_plan(old(reader).image())),
        r matches Ok(m) ==> spec_parse_header(old(reader).image()) matches Some(v) && read_back(
            m,
            old(reader).image(),
            v.2[F_META_OFF as int],
            v.2[F_META_LEN as int],
        ),
        old(reader).reliable() ==> (r is Ok <==> meta_readable(old(reader).image())),
{
    proof {
        reveal(logged_prefix);
    }
    let ghost log0 = reader.requests();
    let header = read_header(reader)?;
    if header.metadata_len == 0 {
        return Ok(None);
    }
    let bytes = reader.read_at(header.metadata_offset, header.metadata_len)?;
    Ok(Some(bytes))
}

/// Fetch an optional section: nothing for an empty one.
fn fetch_optional<R: RangeReader>(reader: &mut R, off: u64, len: u64) -> (r: Result<Option<Vec<u8>>, FileError>)
    ensures
        same_source(*final(reader), *old(reader)),
        logged_all(old(reader).requests(), final(reader).requests(), opt_plan(off, len)),
        r matches Ok(m) ==> read_back(m, old(reader).image(), off, len),
        old(reader).reliable() ==> (r is Ok <==> section_ok(old(reader).image(), off, len)),
{
    proof {
        reveal(logged_prefix);
    }
    if len == 0 {
        return Ok(None);
    }
    Ok(Some(reader.read_at(off, len)?))
}

/// Whether the metadata and build-information sections are both present and
/// adjacent, so that one read covers them.
pub open spec fn card_adjacent(mo: u64, ml: u64, bo: u64, bl: u64) -> bool {
    ml > 0 && bl > 0 && mo <= u64::MAX - ml && bo == mo + ml && ml <= u64::MAX - bl
}

/// The reads [`read_card_and_build_info_with_header`] makes: the header,
/// then one range covering adjacent metadata and build information, or each
/// non-empty one of them on its own.
pub open spec fn card_plan(img: Seq<u8>) -> Seq<(u64, u64)> {
    seq![(0u64, HEADER_LEN as u64)] + match spec_parse_header(img) {
        Some(v) => {
            let mo = v.2[F_META_OFF as int];
            let ml = v.2[F_META_LEN as int];
            let bo = v.2[F_BUILD_OFF as int];
            let bl = v.2[F_BUILD_LEN as int];
            if card_adjacent(mo, ml, bo, bl) {
                seq![(mo, (ml + bl) as u64)]
            } else {
                opt_plan(mo, ml) + opt_plan(bo, bl)
            }
        },
        None => seq![],
    }
}

/// Fetch the metadata and build-information sections in the fewest reads:
/// the header, then, because the writer places build information right after
/// the metadata, one range covering both. Also returns the header, which the
/// caller would otherwise fetch again.
pub fn read_card_and_build_info_with_header<R: RangeReader>(reader: &mut R) -> (r: Result<
    (Header, Option<Vec<u8>>, Option<Vec<u8>>),
    FileError,
>)
    ensures
        same_source(*final(reader), *old(reader)),
        logged_prefix(old(reader).requests(), final(reader).requests(), card_plan(old(reader).image())),
        r is Ok ==> logged_all(old(reader).requests(), final(reader).requests(), card_plan(old(reader).image())),
        r matches Ok((h, m, b)) ==> {
            &&& spec_parse_header(old(reader).image()) == Some(header_view(h))
            &&& read_back(m, old(reader).image(), h.metadata_offset, h.metadata_len)
            &&& read_back(b, old(reader).image(), h.build_info_offset, h.build_info_len)
        },
        old(reader).reliable() ==> (r is Ok <==> card_readable(old(reader).image())),
{
    proof {
        reveal(logged_prefix);
    }
    let ghost img = reader.image();
    let ghost log0 = reader.requests();
    let header = read_header(reader)?;
    let ghost log1 = reader.requests();
    let mo = header.metadata_offset;
    let ml = header.metadata_len;
    let bo = header.build_info_offset;
    let bl = header.build_info_len;
    if ml > 0 && bl > 0 && mo <= u64::MAX - ml && bo == mo + ml && ml <= u64::MAX - bl {
        let both = reader.read_at(mo, ml + bl)?;
        let m = vstd::slice::slice_to_vec(vstd::slice::slice_subrange(both.as_slice(), 0, ml as usize));
        let b = vstd::slice::slice_to_vec(
            vstd::slice::slice_subrange(both.as_slice(), ml as usize, both.len()),
        );
        proof {
            assert(m@ =~= slice_of(img, mo, ml));
            assert(b@ =~= slice_of(img, bo, bl));
        }
        return Ok((header, Some(m), Some(b)));
    }
    let m = fetch_optional(reader, mo, ml);
    proof {
        lemma_logged_concat(log1, log1, reader.requests(), seq![], opt_plan(mo, ml));
        assert(seq![] + opt_plan(mo, ml) =~= opt_plan(mo, ml));
        lemma_logged_more(log1, reader.requests(), opt_plan(mo, ml), opt_plan(bo, bl));
    }
    let m = m?;
    let ghost log2 = reader.requests();
    let b = fetch_optional(reader, bo, bl)?;
    proof {
        lemma_logged_concat(log1, log2, reader.requests(), opt_plan(mo, ml), opt_plan(bo, bl));
    }
    Ok((header, m, b))
}

/// [`read_card_and_build_info_with_header`] without the header.
pub fn read_card_and_build_info_ranged<R: RangeReader>(reader: &mut R) -> (r: Result<
    (Option<Vec<u8>>, Option<Vec<u8>>),
    FileError,
>)
    ensures
        same_source(*final(reader), *old(reader)),
        logged_prefix(old(reader).requests(), final(reader).requests(), card_plan(old(reader).image())),
        r is Ok ==> logged_all(old(reader).requests(), final(reader).requests(), card_plan(old(reader).image())),
        r matches Ok((m, b)) ==> spec_parse_header(old(reader).image()) matches Some(v) && {
            &&& read_back(m, old(reader).image(), v.2[F_META_OFF as int], v.2[F_META_LEN as int])
            &&& read_back(b, old(reader).image(), v.2[F_BUILD_OFF as int], v.2[F_BUILD_LEN as int])
        },
        old(reader).reliable() ==> (r is Ok <==> card_readable(old(reader).image())),
{
    let (_, m, b) = read_card_and_build_info_with_header(reader)?;
    Ok((m, b))
}

/// The token-table length a text-index section announces in its leading
/// varint: the varint's own length plus the value, capped at the section.
pub open spec fn token_table_len(head: Seq<u8>, len: u64) -> Option<u64> {
    match spec_read_uvarint(head) {
        Some((t, n)) => Some(if n + t < len { (n + t) as u64 } else { len }),
        None => None,
    }
}

/// Byte length of the text-index section's leading token table, from its
/// first (at most ten) bytes.
pub fn read_token_table_len<R: RangeReader>(reader: &mut R, off: u64, len: u64) -> (r: Option<u64>)
    ensures
        same_source(*final(reader), *old(reader)),
        final(reader).requests() == old(reader).requests().push((off, if len < 10 { len } else { 10 })),
        r matches Some(x) ==> ({
            let n = if len < 10 { len } else { 10 };
            &&& off + n <= old(reader).image().len()
            &&& token_table_len(slice_of(old(reader).image(), off, n), len) == Some(x)
        }),
        old(reader).reliable() && off + (if len < 10 { len } else { 10 }) <= old(reader).image().len() ==> r
            == token_table_len(slice_of(old(reader).image(), off, if len < 10 { len } else { 10 }), len),
{
    let n = if len < 10 { len } else { 10 };
    let head = match reader.read_at(off, n) {
        Ok(h) => h,
        Err(_) => return None,
    };
    let (ttlen, used) = read_uvarint(head.as_slice())?;
    proof {
        crate::varint::lemma_leb_decode_bounds(head@, 10);
    }
    let total = ttlen.saturating_add(used as u64);
    Some(if total < len { total } else { len })
}

/// Byte length of the text-index section's leading token table, for a header
/// the caller already holds: one read of at most ten bytes. `None` when the
/// file carries no text index or the read fails.
pub fn read_text_index_token_table_len_ranged<R: RangeReader>(reader: &mut R, header: &Header) -> (r:
    Option<u64>)
    ensures
        same_source(*final(reader), *old(reader)),
        logged_all(
            old(reader).requests(),
            final(reader).requests(),
            opt_plan(header.text_index_offset, if header.text_index_len < 10 { header.text_index_len } else { 10 }),
        ),
        header.text_index_len == 0 ==> r is None,
        r matches Some(x) ==> ({
            let n = if header.text_index_len < 10 { header.text_index_len } else { 10 };
            token_table_len(slice_of(old(reader).image(), header.text_index_offset, n), header.text_index_len) == Some(x)
        }),
        ({
            let n = if header.text_index_len < 10 { header.text_index_len } else { 10 };
            old(reader).reliable() && header.text_index_len > 0 && header.text_index_offset + n <= old(reader).image().len()
                ==> r == token_table_len(slice_of(old(reader).image(), header.text_index_offset, n), header.text_index_len)
        }),
{
    proof {
        reveal(logged_prefix);
    }
    if header.text_index_len == 0 {
        return None;
    }
    read_token_table_len(reader, header.text_index_offset, header.text_index_len)
}

} // verus!
