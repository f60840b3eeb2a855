//! Queries through a range reader: fetch the header, the dictionary, the
//! container framing and only the tiles a pattern routes to.
use vstd::prelude::*;

use crate::codec::{decompress, spec_decompress, FileError};
use crate::dict::{decode_dictionary_container, spec_dictionary, Dictionary};
use crate::header::{header_view, spec_parse_header, Header, HEADER_LEN, NEXT_FORMAT_VERSION};
use crate::image::{in_image, slice_of, ByteRange, F_DICT_CODEC, F_DICT_LEN, F_DICT_OFF, F_ROOT_LEN, F_ROOT_OFF};
use crate::index::{
    has_perm, index_matches, leading_bound, perm_present, perms_below, perm_count, route, route_slot, run_matches,
    tile_content, Pattern,
};
use crate::reader::{log_follows, reads_within, same_source, RangeReader};
use crate::ranged_family::{
    family_answer, family_fetch_ready, family_section, family_sizes_ok, fetch_family_matches,
    read_family_directory_ranged,
};
use crate::rete::{
    opt_bytes, pattern_for, resolve_all, resolve_query_pattern, resolve_triples, tts_view, unresolvable, Rete, TermTriple,
};
use crate::tile::{triple_lt, Triple};
use crate::tiled::{parse_tile_directory, spec_tile_directory, TileDirEntry};
use crate::varint::{read_uvarint, spec_read_uvarint};

verus! {

/// The end of `len` bytes at `off`; an error when it overflows.
pub fn checked_end(off: u64, len: u64) -> (r: Result<u64, FileError>)
    ensures
        off + len <= u64::MAX ==> r == Ok::<u64, FileError>((off + len) as u64),
        off + len > u64::MAX ==> r == Err::<u64, FileError>(FileError::Container("section range overflows")),
{
    if off > u64::MAX - len {
        Err(FileError::Container("section range overflows"))
    } else {
        Ok(off + len)
    }
}

/// The varint at `off` of a container ending at `end`, probed with at
/// most ten bytes: its value and length.
pub open spec fn probe_varint(img: Seq<u8>, off: u64, end: u64) -> Result<(u64, u64), FileError> {
    if off >= end {
        Err(FileError::Container("truncated container varint"))
    } else {
        let n: int = if end - off < 10 { end - off } else { 10 };
        match spec_read_uvarint(img.subrange(off as int, off + n)) {
            Some((v, u)) => Ok((v, u as u64)),
            None => Err(FileError::Container("truncated container varint")),
        }
    }
}

/// Read the varint at `off` of a container ending at `end`.
fn read_uvarint_at<R: RangeReader>(reader: &mut R, off: u64, end: u64) -> (r: Result<(u64, u64), FileError>)
    ensures
        same_source(*final(reader), *old(reader)),
        reads_within(old(reader).requests(), final(reader).requests(), off as int, end as int, 10),
        r matches Ok(x) ==> probe_varint(old(reader).image(), off, end) == Ok::<(u64, u64), FileError>(x),
        probe_varint(old(reader).image(), off, end) is Err ==> r is Err,
        old(reader).reliable() && end <= old(reader).image().len() ==> r == probe_varint(old(reader).image(), off, end),
{
    if off >= end {
        return Err(FileError::Container("truncated container varint"));
    }
    let remaining = end - off;
    let probe = if remaining < 10 { remaining } else { 10 };
    let bytes = reader.read_at(off, probe)?;
    match read_uvarint(bytes.as_slice()) {
        Some((v, used)) => Ok((v, used as u64)),
        None => Err(FileError::Container("truncated container varint")),
    }
}

/// Walk a container's section framing from section `i` at `pos` to section
/// `idx`: its payload range, or the first failure.
pub open spec fn locate_walk(img: Seq<u8>, pos: u64, end: u64, i: nat, count: nat, idx: nat) -> Result<
    ByteRange,
    FileError,
>
    decreases count - i,
{
    if i >= count {
        Err(FileError::Container("container section not found"))
    } else {
        match probe_varint(img, pos, end) {
            Err(e) => Err(e),
            Ok((len, used)) => if pos + used > u64::MAX {
                Err(FileError::Container("section range overflows"))
            } else if pos + used + len > u64::MAX {
                Err(FileError::Container("section range overflows"))
            } else if pos + used + len > end {
                Err(FileError::Container("section overruns buffer"))
            } else if i == idx {
                Ok(ByteRange { offset: (pos + used) as u64, len })
            } else {
                locate_walk(img, (pos + used + len) as u64, end, i + 1, count, idx)
            },
        }
    }
}

/// Where section `idx` of a container of `expected` sections at `off`
/// lies, read from its framing alone.
pub open spec fn spec_locate(img: Seq<u8>, off: u64, len: u64, idx: nat, expected: u64) -> Result<ByteRange, FileError> {
    if off + len > u64::MAX {
        Err(FileError::Container("section range overflows"))
    } else {
        let end = (off + len) as u64;
        match probe_varint(img, off, end) {
            Err(e) => Err(e),
            Ok((count, used)) => if count != expected {
                Err(FileError::Container("unexpected container section count"))
            } else if idx >= count {
                Err(FileError::Container("container section index out of bounds"))
            } else if off + used > u64::MAX {
                Err(FileError::Container("section range overflows"))
            } else {
                locate_walk(img, (off + used) as u64, end, 0, count as nat, idx)
            },
        }
    }
}

/// Locate one section's payload inside a container through a range
/// reader, walking only its framing.
fn locate_container_section_ranged<R: RangeReader>(
    reader: &mut R,
    container_offset: u64,
    container_len: u64,
    section_index: usize,
    expected_sections: u64,
) -> (r: Result<ByteRange, FileError>)
    ensures
        same_source(*final(reader), *old(reader)),
        reads_within(
            old(reader).requests(),
            final(reader).requests(),
            container_offset as int,
            container_offset + container_len,
            10,
        ),
        r matches Ok(x) ==> container_offset <= x.offset && x.offset + x.len <= container_offset + container_len,
        r matches Ok(x) ==> spec_locate(
            old(reader).image(),
            container_offset,
            container_len,
            section_index as nat,
            expected_sections,
        ) == Ok::<ByteRange, FileError>(x),
        spec_locate(old(reader).image(), container_offset, container_len, section_index as nat, expected_sections) is Err
            ==> r is Err,
        old(reader).reliable() && container_offset + container_len <= old(reader).image().len() ==> r == spec_locate(
            old(reader).image(),
            container_offset,
            container_len,
            section_index as nat,
            expected_sections,
        ),
{
    let end = checked_end(container_offset, container_len)?;
    let (count, used) = read_uvarint_at(reader, container_offset, end)?;
    if count != expected_sections {
        return Err(FileError::Container("unexpected container section count"));
    }
    if section_index as u64 >= count {
        return Err(FileError::Container("container section index out of bounds"));
    }
    let mut pos = checked_end(container_offset, used)?;
    let mut i: u64 = 0;
    while i < count
        invariant
            i <= count,
            section_index < count,
            i <= section_index,
            spec_locate(reader.image(), container_offset, container_len, section_index as nat, expected_sections)
                == locate_walk(reader.image(), pos, end, i as nat, count as nat, section_index as nat),
            end == container_offset + container_len,
            same_source(*reader, *old(reader)),
            reads_within(old(reader).requests(), reader.requests(), container_offset as int, end as int, 10),
            container_offset <= pos,
        decreases count - i,
    {
        let ghost mid = reader.requests();
        let got = read_uvarint_at(reader, pos, end);
        proof {
            crate::reader::lemma_within_widen(mid, reader.requests(), seq![], pos as int, end as int, 10, container_offset as int, end as int, 10);
            crate::reader::lemma_follows_within(old(reader).requests(), mid, reader.requests(), seq![], container_offset as int, end as int, 10);
        }
        let (len, len_used) = got?;
        let p = checked_end(pos, len_used)?;
        let payload_end = checked_end(p, len)?;
        if payload_end > end {
            return Err(FileError::Container("section overruns buffer"));
        }
        if i == section_index as u64 {
            return Ok(ByteRange { offset: p, len });
        }
        pos = payload_end;
        i = i + 1;
    }
    Err(FileError::Container("container section not found"))
}

/// The number of carried slots below slot `k`.
fn carried_below(mask: u8, k: usize) -> (r: usize)
    requires
        k <= 6,
    ensures
        r == perms_below(mask, k as int),
        r <= k,
{
    let mut c: usize = 0;
    let mut j: usize = 0;
    while j < k
        invariant
            j <= k <= 6,
            c == perms_below(mask, j as int),
            c <= j,
        decreases k - j,
    {
        if perm_present(mask, j) {
            c = c + 1;
        }
        j = j + 1;
    }
    c
}

/// A pattern routed to its permutation section, with no payload read yet.
pub struct RoutedPattern {
    pub dict: Dictionary,
    pub pattern: Pattern,
    /// The slot the pattern routes to.
    pub slot: usize,
    pub header: Header,
    /// Where the slot's payload lies in the file.
    pub section: ByteRange,
}

/// The container position and section count of slot `k` in a file of
/// format `version` carrying `perms`.
pub open spec fn slot_position(version: u8, perms: u8, k: int) -> (nat, u64) {
    if version == NEXT_FORMAT_VERSION {
        ((k % 3) as nat, 3)
    } else {
        (perms_below(perms, k), perm_count(perms) as u64)
    }
}

/// The header and dictionary a ranged read of `img` gives: its parsed
/// header, and the dictionary container it locates decoding to `dict`.
pub open spec fn header_and_dict(img: Seq<u8>, h: Header, dict: Dictionary) -> bool {
    &&& spec_parse_header(img) == Some(header_view(h))
    &&& in_image(img, h.dictionary_offset, h.dictionary_len)
    &&& spec_dictionary(slice_of(img, h.dictionary_offset, h.dictionary_len), h.dict_codec) == Ok::<
        (Seq<Seq<u8>>, Seq<Seq<u8>>, Seq<Seq<u8>>, Seq<Seq<u8>>),
        FileError,
    >((dict.shared_terms(), dict.subject_terms(), dict.object_terms(), dict.predicate_terms()))
}

/// A routed pattern as `img` gives it: header and dictionary read back, the
/// pattern resolved, the slot routed, and the slot's section located.
pub open spec fn routed_ok(
    img: Seq<u8>,
    s: Option<Seq<u8>>,
    p: Option<Seq<u8>>,
    o: Option<Seq<u8>>,
    rp: RoutedPattern,
) -> bool {
    let h = rp.header;
    let pos = slot_position(h.version, h.perms, rp.slot as int);
    &&& header_and_dict(img, h, rp.dict)
    &&& pattern_for(rp.dict, s, p, o, rp.pattern)
    &&& route(h.perms, rp.pattern) == Some(rp.slot as int)
    &&& rp.slot < 6
    &&& spec_locate(img, h.root_dir_offset, h.root_dir_len, pos.0, pos.1) == Ok::<ByteRange, FileError>(rp.section)
}

/// The file's header and dictionary read back, and a bound term of the
/// pattern unknown in its role.
pub open spec fn unknown_term(img: Seq<u8>, s: Option<Seq<u8>>, p: Option<Seq<u8>>, o: Option<Seq<u8>>) -> bool {
    exists|h: Header, d: Dictionary| header_and_dict(img, h, d) && unresolvable(d, s, p, o)
}

/// The header parses, the dictionary and the index container it locates
/// lie inside the image, and the dictionary decodes.
#[verifier::opaque]
pub open spec fn route_sections_ok(img: Seq<u8>) -> bool {
    &&& spec_parse_header(img) matches Some(v)
    &&& in_image(img, v.2[F_DICT_OFF as int], v.2[F_DICT_LEN as int])
    &&& spec_dictionary(slice_of(img, v.2[F_DICT_OFF as int], v.2[F_DICT_LEN as int]), v.2[F_DICT_CODEC as int] as u8)
        is Ok
    &&& in_image(img, v.2[F_ROOT_OFF as int], v.2[F_ROOT_LEN as int])
}

/// Unless a bound term is unknown, the pattern routes to a carried slot
/// whose section the container framing locates.
#[verifier::opaque]
pub open spec fn route_slots_ok(img: Seq<u8>, s: Option<Seq<u8>>, p: Option<Seq<u8>>, o: Option<Seq<u8>>) -> bool {
    forall|h: Header, d: Dictionary, pat: Pattern|
        #![trigger header_and_dict(img, h, d), pattern_for(d, s, p, o, pat)]
        header_and_dict(img, h, d) && pattern_for(d, s, p, o, pat) ==> (route(h.perms, pat) matches Some(k)
            && spec_locate(
            img,
            h.root_dir_offset,
            h.root_dir_len,
            slot_position(h.version, h.perms, k).0,
            slot_position(h.version, h.perms, k).1,
        ) is Ok)
}

/// A file a pattern can be routed through: its header, dictionary and
/// index container are in place and the pattern's slot is locatable.
pub open spec fn route_ready(img: Seq<u8>, s: Option<Seq<u8>>, p: Option<Seq<u8>>, o: Option<Seq<u8>>) -> bool {
    route_sections_ok(img) && route_slots_ok(img, s, p, o)
}

/// The stored fields of a header that locate its dictionary and index.
#[verifier::spinoff_prover]
pub(crate) proof fn lemma_locating_fields(h: Header)
    ensures
        header_view(h).2[F_DICT_OFF as int] == h.dictionary_offset,
        header_view(h).2[F_DICT_LEN as int] == h.dictionary_len,
        header_view(h).2[F_DICT_CODEC as int] as u8 == h.dict_codec,
        header_view(h).2[F_ROOT_OFF as int] == h.root_dir_offset,
        header_view(h).2[F_ROOT_LEN as int] == h.root_dir_len,
{
}

/// A file whose sections are in place has a header.
proof fn lemma_route_sections_parse(img: Seq<u8>)
    requires
        route_sections_ok(img),
    ensures
        spec_parse_header(img) is Some,
{
    reveal(route_sections_ok);
}

/// What the header of a file whose sections are in place locates.
#[verifier::spinoff_prover]
proof fn lemma_route_sections(img: Seq<u8>, h: Header)
    requires
        route_sections_ok(img),
        spec_parse_header(img) == Some(header_view(h)),
    ensures
        in_image(img, h.dictionary_offset, h.dictionary_len),
        spec_dictionary(slice_of(img, h.dictionary_offset, h.dictionary_len), h.dict_codec) is Ok,
        in_image(img, h.root_dir_offset, h.root_dir_len),
{
    reveal(route_sections_ok);
    lemma_locating_fields(h);
}

/// In a routable file, a resolved pattern routes to a slot whose section
/// the container framing locates.
proof fn lemma_route_ready_slot(
    img: Seq<u8>,
    s: Option<Seq<u8>>,
    p: Option<Seq<u8>>,
    o: Option<Seq<u8>>,
    h: Header,
    d: Dictionary,
    pat: Pattern,
)
    requires
        route_slots_ok(img, s, p, o),
        header_and_dict(img, h, d),
        pattern_for(d, s, p, o, pat),
    ensures
        route(h.perms, pat) matches Some(k) && spec_locate(
            img,
            h.root_dir_offset,
            h.root_dir_len,
            slot_position(h.version, h.perms, k).0,
            slot_position(h.version, h.perms, k).1,
        ) is Ok,
{
    reveal(route_slots_ok);
}

/// The fixed reads of routing a pattern: the header, then the dictionary
/// section it locates.
pub open spec fn route_plan(img: Seq<u8>) -> Seq<(u64, u64)> {
    seq![(0u64, HEADER_LEN as u64)] + match spec_parse_header(img) {
        Some(v) => seq![(v.2[F_DICT_OFF as int], v.2[F_DICT_LEN as int])],
        None => seq![],
    }
}

/// The reads routing makes: the header and the dictionary, then only varint
/// probes of at most ten bytes inside the index container, so no tile
/// payload and no other section.
pub open spec fn route_reads(old: Seq<(u64, u64)>, new: Seq<(u64, u64)>, img: Seq<u8>) -> bool {
    match spec_parse_header(img) {
        Some(v) => log_follows(
            old,
            new,
            route_plan(img),
            v.2[F_ROOT_OFF as int] as int,
            v.2[F_ROOT_OFF as int] + v.2[F_ROOT_LEN as int],
            10,
        ),
        None => log_follows(old, new, route_plan(img), 0, 0, -1),
    }
}

/// Resolve a pattern against the file's dictionary and locate its
/// permutation section: header, dictionary and container framing only.
/// `None` when a bound term is unknown.
#[verifier::rlimit(60)]
#[verifier::spinoff_prover]
pub fn route_pattern<R: RangeReader>(reader: &mut R, s: Option<&str>, p: Option<&str>, o: Option<&str>) -> (r: Result<
    Option<RoutedPattern>,
    FileError,
>)
    ensures
        same_source(*final(reader), *old(reader)),
        route_reads(old(reader).requests(), final(reader).requests(), old(reader).image()),
        r matches Ok(Some(rp)) ==> routed_ok(old(reader).image(), opt_bytes(s), opt_bytes(p), opt_bytes(o), rp),
        r matches Ok(None) ==> unknown_term(old(reader).image(), opt_bytes(s), opt_bytes(p), opt_bytes(o)),
        old(reader).reliable() && route_ready(old(reader).image(), opt_bytes(s), opt_bytes(p), opt_bytes(o)) ==> r is Ok,
{
    let ghost img = reader.image();
    let ghost log0 = reader.requests();
    let ghost ready = reader.reliable() && route_ready(img, opt_bytes(s), opt_bytes(p), opt_bytes(o));
    proof {
        if ready {
            lemma_route_sections_parse(img);
        }
    }
    let header = crate::reader::read_header(reader)?;
    proof {
        if ready {
            lemma_route_sections(img, header);
        }
    }
    let dict_bytes = reader.read_at(header.dictionary_offset, header.dictionary_len)?;
    let dict = decode_dictionary_container(dict_bytes.as_slice(), header.dict_codec)?;
    proof {
        assert(header_and_dict(img, header, dict));
    }
    let pattern = match resolve_query_pattern(&dict, s, p, o) {
        Some(pat) => pat,
        None => {
            proof {
                assert(header_and_dict(reader.image(), header, dict));
                assert(unknown_term(reader.image(), opt_bytes(s), opt_bytes(p), opt_bytes(o)));
            }
            return Ok(None);
        },
    };
    proof {
        crate::index::lemma_route(header.perms, pattern);
        if ready {
            lemma_route_ready_slot(img, opt_bytes(s), opt_bytes(p), opt_bytes(o), header, dict, pattern);
        }
    }
    let slot = match route_slot(header.perms, pattern) {
        Some(k) => k,
        None => return Err(FileError::Container("routed to an absent permutation")),
    };
    let (position, sections) = if header.version == NEXT_FORMAT_VERSION {
        (slot % 3, 3u64)
    } else {
        (carried_below(header.perms, slot), crate::index::perms_len(header.perms) as u64)
    };
    let ghost mid = reader.requests();
    let located = locate_container_section_ranged(
        reader,
        header.root_dir_offset,
        header.root_dir_len,
        position,
        sections,
    );
    proof {
        crate::reader::lemma_follows_within(
            log0,
            mid,
            reader.requests(),
            route_plan(img),
            header.root_dir_offset as int,
            header.root_dir_offset + header.root_dir_len,
            10,
        );
    }
    let section = located?;
    Ok(Some(RoutedPattern { dict, pattern, slot, header, section }))
}

/// Fetch a tiled section's directory: read a prefix of the section and
/// double it until the directory parses, never past the section.
fn read_tile_directory_ranged<R: RangeReader>(reader: &mut R, section: ByteRange) -> (r: Result<
    Vec<TileDirEntry>,
    FileError,
>)
    ensures
        same_source(*final(reader), *old(reader)),
        reads_within(
            old(reader).requests(),
            final(reader).requests(),
            section.offset as int,
            section.offset + section.len,
            section.len as int,
        ),
        r matches Ok(dir) ==> exists|l: u64|
            l <= section.len && in_image(old(reader).image(), section.offset, l) && spec_tile_directory(
                slice_of(old(reader).image(), section.offset, l),
                section.len,
            ) == Ok::<Seq<TileDirEntry>, FileError>(dir@),
        old(reader).reliable() && in_image(old(reader).image(), section.offset, section.len) && spec_tile_directory(
            slice_of(old(reader).image(), section.offset, section.len),
            section.len,
        ) is Ok ==> (r matches Ok(dir) && spec_tile_directory(
            slice_of(old(reader).image(), section.offset, section.len),
            section.len,
        ) == Ok::<Seq<TileDirEntry>, FileError>(dir@)),
{
    let ghost img = reader.image();
    let ghost whole = slice_of(img, section.offset, section.len);
    let ghost ready = reader.reliable() && in_image(img, section.offset, section.len) && spec_tile_directory(
        whole,
        section.len,
    ) is Ok;
    let total = section.len;
    let mut prefetch: u64 = if total < 4096 { total } else { 4096 };
    loop
        invariant
            same_source(*reader, *old(reader)),
            reads_within(
                old(reader).requests(),
                reader.requests(),
                section.offset as int,
                section.offset + section.len,
                section.len as int,
            ),
            prefetch <= total,
            total == section.len,
            total > 0 ==> prefetch > 0,
            img == reader.image(),
            whole == slice_of(img, section.offset, section.len),
            ready == (reader.reliable() && in_image(img, section.offset, section.len) && spec_tile_directory(
                whole,
                section.len,
            ) is Ok),
        decreases total - prefetch,
    {
        let prefix = reader.read_at(section.offset, prefetch)?;
        proof {
            if ready {
                assert(crate::tiled::is_prefix(prefix@, whole)) by {
                    assert(whole.subrange(0, prefix@.len() as int) =~= prefix@);
                }
            }
        }
        match parse_tile_directory(prefix.as_slice(), total) {
            Ok(dir) => {
                proof {
                    assert(prefix@ == slice_of(reader.image(), section.offset, prefetch));
                    assert(in_image(reader.image(), section.offset, prefetch));
                    assert(spec_tile_directory(slice_of(reader.image(), section.offset, prefetch), section.len) == Ok::<
                        Seq<TileDirEntry>,
                        FileError,
                    >(dir@));
                    if ready {
                        crate::tiled::lemma_tile_directory_prefix(prefix@, whole, section.len);
                    }
                }
                return Ok(dir);
            },
            Err(e) => {
                if prefetch < total {
                    let doubled: u64 = if prefetch > u64::MAX / 2 { u64::MAX } else { prefetch * 2 };
                    prefetch = if doubled < total { doubled } else { total };
                } else {
                    proof {
                        if ready {
                            assert(prefix@ =~= whole);
                        }
                    }
                    return Err(e);
                }
            },
        }
    }
}

/// The triples a tile's bytes hold, or none when they are not a tile.
pub open spec fn tile_triples_or_empty(b: Seq<u8>) -> Seq<Triple> {
    match tile_content(b) {
        Some(ts) => ts,
        None => seq![],
    }
}

/// The matches of `pat` among the slot-`k` triples a tile's bytes hold.
pub(crate) fn tile_matches(k: usize, tile: &[u8], pat: Pattern) -> (r: Vec<Triple>)
    ensures
        r@ == run_matches(k as int, tile_triples_or_empty(tile@), pat),
{
    let mut out: Vec<Triple> = Vec::new();
    match crate::index::tile_triples(tile) {
        Some(ts) => {
            crate::index::push_run_matches(&mut out, k, &ts, pat);
            proof {
                assert(out@ =~= run_matches(k as int, ts@, pat));
            }
        },
        None => {
            proof {
                assert(run_matches(k as int, Seq::<Triple>::empty(), pat) =~= Seq::<Triple>::empty());
            }
        },
    }
    out
}

/// Whether a tile whose leading range is `[lo, hi]` can hold a match of
/// leading value `lead`.
pub open spec fn admits_lead(lo: u32, hi: u32, lead: Option<u32>) -> bool {
    match lead {
        Some(a) => lo <= a <= hi,
        None => true,
    }
}

/// The matches in the admitted tiles of a tiled section's directory, each
/// tile's stored bytes decompressed; none when one fails to decompress.
pub open spec fn tiled_matches(
    img: Seq<u8>,
    sec: ByteRange,
    dir: Seq<TileDirEntry>,
    codec: u8,
    k: int,
    pat: Pattern,
) -> Option<Seq<Triple>>
    decreases dir.len(),
{
    if dir.len() == 0 {
        Some(seq![])
    } else {
        let e = dir.last();
        match tiled_matches(img, sec, dir.drop_last(), codec, k, pat) {
            None => None,
            Some(m) => if !admits_lead(e.min_a, e.max_a, leading_bound(k, pat)) {
                Some(m)
            } else {
                match spec_decompress(codec, img.subrange(sec.offset + e.start, sec.offset + e.end)) {
                    Ok(t) => Some(m + run_matches(k, tile_triples_or_empty(t), pat)),
                    Err(_) => None,
                }
            },
        }
    }
}

/// Triples in ascending order, repeats allowed.
pub open spec fn nondecreasing(s: Seq<Triple>) -> bool {
    forall|i: int, j: int| 0 <= i < j < s.len() ==> !triple_lt(#[trigger] s[j], #[trigger] s[i])
}

/// Sort triples ascending.
pub fn sort_triples(v: Vec<Triple>) -> (r: Vec<Triple>)
    ensures
        nondecreasing(r@),
        r@.to_multiset() == v@.to_multiset(),
{
    broadcast use vstd::seq_lib::group_to_multiset_ensures;

    let n = v.len();
    let mut out: Vec<Triple> = Vec::new();
    let mut i: usize = 0;
    while i < n
        invariant
            n == v@.len(),
            i <= n,
            nondecreasing(out@),
            out@.to_multiset() == v@.take(i as int).to_multiset(),
        decreases n - i,
    {
        let x = v[i];
        let m = out.len();
        let mut p: usize = 0;
        while p < m && crate::tile::triple_less(out[p], x)
            invariant
                m == out@.len(),
                p <= m,
                forall|j: int| 0 <= j < p ==> triple_lt(#[trigger] out@[j], x),
            decreases m - p,
        {
            p = p + 1;
        }
        let ghost before = out@;
        out.insert(p, x);
        proof {
            assert forall|a: int, b: int| 0 <= a < b < out@.len() implies !triple_lt(#[trigger] out@[b], #[trigger] out@[a]) by {
                if b < p {
                    assert(out@[a] == before[a] && out@[b] == before[b]);
                } else if b == p {
                    assert(out@[a] == before[a]);
                } else if a < p {
                    assert(out@[a] == before[a] && out@[b] == before[b - 1]);
                    assert(triple_lt(before[a], x));
                    assert(!triple_lt(before[p as int], x));
                    if b - 1 > p {
                        assert(!triple_lt(before[b - 1], before[p as int]));
                    }
                } else if a == p {
                    assert(out@[b] == before[b - 1]);
                    assert(!triple_lt(before[p as int], x));
                    if b - 1 > p {
                        assert(!triple_lt(before[b - 1], before[p as int]));
                    }
                } else {
                    assert(out@[a] == before[a - 1] && out@[b] == before[b - 1]);
                }
            }
            vstd::seq_lib::to_multiset_insert(before, p as int, x);
            assert(v@.take(i + 1) =~= v@.take(i as int).push(x));
            vstd::seq_lib::to_multiset_build(v@.take(i as int), x);
        }
        i = i + 1;
    }
    proof {
        assert(v@.take(n as int) =~= v@);
    }
    out
}

/// A directory entry's tile lies inside the image, is of a length a buffer
/// can hold, and decompresses.
pub open spec fn tile_fetchable(img: Seq<u8>, sec: ByteRange, e: TileDirEntry, codec: u8) -> bool {
    &&& e.start <= e.end
    &&& sec.offset + e.end <= img.len()
    &&& sec.offset + e.start <= u64::MAX
    &&& e.end - e.start <= isize::MAX
    &&& spec_decompress(codec, img.subrange(sec.offset + e.start, sec.offset + e.end)) is Ok
}

/// The bytes of a directory entry's tile, read from the file.
fn fetch_tile<R: RangeReader>(reader: &mut R, section: ByteRange, e: TileDirEntry, codec: u8) -> (r: Result<
    Vec<u8>,
    FileError,
>)
    ensures
        same_source(*final(reader), *old(reader)),
        r matches Ok(t) ==> e.start <= e.end && section.offset + e.end <= old(reader).image().len()
            && spec_decompress(codec, old(reader).image().subrange(section.offset + e.start, section.offset + e.end))
            == Ok::<Seq<u8>, FileError>(t@),
        old(reader).reliable() ==> (r is Ok <==> tile_fetchable(old(reader).image(), section, e, codec)),
{
    let offset = checked_end(section.offset, e.start)?;
    if e.end < e.start {
        return Err(FileError::Container("tile range overflows"));
    }
    let len = e.end - e.start;
    if len > isize::MAX as u64 {
        return Err(FileError::Container("tile length too large"));
    }
    let bytes = reader.read_at(offset, len)?;
    proof {
        assert(bytes@ == reader.image().subrange(section.offset + e.start, section.offset + e.end));
    }
    decompress(codec, bytes.as_slice())
}

/// A first-generation tiled section that a ranged read can answer from:
/// inside the image, of a length a buffer can hold, with a directory that
/// parses and every tile the pattern admits decompressing.
pub open spec fn tiled_ready(img: Seq<u8>, sec: ByteRange, codec: u8, k: int, pat: Pattern) -> bool {
    &&& in_image(img, sec.offset, sec.len)
    &&& sec.offset + sec.len <= u64::MAX
    &&& sec.len <= isize::MAX
    &&& spec_tile_directory(slice_of(img, sec.offset, sec.len), sec.len) matches Ok(dir)
    &&& tiled_matches(img, sec, dir, codec, k, pat) is Some
}

/// Matches that exist for a directory exist for each of its prefixes.
proof fn lemma_tiled_matches_prefix(
    img: Seq<u8>,
    sec: ByteRange,
    dir: Seq<TileDirEntry>,
    codec: u8,
    k: int,
    pat: Pattern,
    j: int,
)
    requires
        tiled_matches(img, sec, dir, codec, k, pat) is Some,
        0 <= j <= dir.len(),
    ensures
        tiled_matches(img, sec, dir.take(j), codec, k, pat) is Some,
    decreases dir.len(),
{
    if j == dir.len() {
        assert(dir.take(j) =~= dir);
    } else {
        lemma_tiled_matches_prefix(img, sec, dir.drop_last(), codec, k, pat, j);
        assert(dir.drop_last().take(j) =~= dir.take(j));
    }
}

/// `out` is, sorted, the matches a first-generation tiled section `sec`
/// holds for a pattern routed to slot `k`, in the tiles its directory, read
/// from a prefix of the section, admits.
pub open spec fn tiled_answer(img: Seq<u8>, sec: ByteRange, codec: u8, k: int, pat: Pattern, out: Seq<Triple>) -> bool {
    exists|dir: Seq<TileDirEntry>, l: u64|
        {
            &&& l <= sec.len
            &&& in_image(img, sec.offset, l)
            &&& spec_tile_directory(slice_of(img, sec.offset, l), sec.len) == Ok::<Seq<TileDirEntry>, FileError>(dir)
            &&& tiled_matches(img, sec, dir, codec, k, pat) matches Some(m)
            &&& nondecreasing(out)
            &&& out.to_multiset() == m.to_multiset()
        }
}

/// The matches of a routed pattern in a first-generation tiled section:
/// the directory, then only the tiles the bound leading value routes to
/// (every tile, in one read, when it is unbound), sorted.
#[verifier::rlimit(50)]
#[verifier::spinoff_prover]
fn fetch_tiled_matches<R: RangeReader>(reader: &mut R, section: ByteRange, codec: u8, k: usize, pat: Pattern) -> (r: Result<
    Vec<Triple>,
    FileError,
>)
    requires
        k < 6,
    ensures
        same_source(*final(reader), *old(reader)),
        r matches Ok(out) ==> tiled_answer(old(reader).image(), section, codec, k as int, pat, out@),
        old(reader).reliable() && tiled_ready(old(reader).image(), section, codec, k as int, pat) ==> r is Ok,
{
    let ghost ready = reader.reliable() && tiled_ready(reader.image(), section, codec, k as int, pat);
    let dir = read_tile_directory_ranged(reader, section)?;
    proof {
        if ready {
            crate::tiled::lemma_tile_directory_order(
                slice_of(reader.image(), section.offset, section.len),
                section.len,
            );
            assert(spec_tile_directory(slice_of(reader.image(), section.offset, section.len), section.len) == Ok::<
                Seq<TileDirEntry>,
                FileError,
            >(dir@));
            assert forall|j: int| 0 <= j < dir@.len() implies #[trigger] dir@[j].start <= dir@[j].end <= section.len by {
            }
            if dir@.len() > 0 {
                assert(dir@.last() == dir@[dir@.len() - 1]);
                assert forall|j: int| 0 <= j < dir@.len() implies dir@[0].start <= #[trigger] dir@[j].start && dir@[j].end
                    <= dir@[dir@.len() - 1].end by {
                }
            }
        }
    }
    let lead = crate::index::leading_of(k, pat);
    let n = dir.len();
    let mut out: Vec<Triple> = Vec::new();
    let mut body: Vec<u8> = Vec::new();
    let mut base: u64 = 0;
    if lead.is_none() && n > 0 {
        base = dir[0].start;
        let body_offset = checked_end(section.offset, base)?;
        if dir[n - 1].end < base {
            return Err(FileError::Container("tile range overflows"));
        }
        let body_len = dir[n - 1].end - base;
        if body_len > isize::MAX as u64 {
            return Err(FileError::Container("tile body too large"));
        }
        body = reader.read_at(body_offset, body_len)?;
        proof {
            assert(body@ == reader.image().subrange(section.offset + base, section.offset + base + body_len));
        }
    }
    let ghost img = reader.image();
    let mut i: usize = 0;
    while i < n
        invariant
            same_source(*reader, *old(reader)),
            n == dir@.len(),
            i <= n,
            k < 6,
            img == reader.image(),
            lead == leading_bound(k as int, pat),
            ready == (reader.reliable() && tiled_ready(img, section, codec, k as int, pat)),
            ready ==> tiled_matches(img, section, dir@, codec, k as int, pat) is Some,
            ready ==> forall|j: int| 0 <= j < n ==> #[trigger] dir@[j].start <= dir@[j].end <= section.len,
            ready ==> forall|j: int|
                0 <= j < n ==> dir@[0].start <= #[trigger] dir@[j].start && dir@[j].end <= dir@[n - 1].end,
            ready && lead is None && n > 0 ==> base == dir@[0].start && body@.len() == dir@[n - 1].end - base,
            lead is None && n > 0 ==> section.offset + base + body@.len() <= img.len() && body@ == img.subrange(
                section.offset + base,
                section.offset + base + body@.len(),
            ),
            tiled_matches(img, section, dir@.take(i as int), codec, k as int, pat) == Some(out@),
        decreases n - i,
    {
        let e = dir[i];
        proof {
            assert(dir@.take(i + 1).drop_last() =~= dir@.take(i as int));
            assert(dir@.take(i + 1).last() == e);
            if ready {
                lemma_tiled_matches_prefix(img, section, dir@, codec, k as int, pat, i + 1);
                assert(dir@.last() == dir@[n - 1]);
            }
        }
        let admitted = match lead {
            Some(a) => e.min_a <= a && a <= e.max_a,
            None => true,
        };
        proof {
            if ready && admitted {
                assert(admits_lead(e.min_a, e.max_a, leading_bound(k as int, pat)));
                assert(spec_decompress(codec, img.subrange(section.offset + e.start, section.offset + e.end)) is Ok);
                assert(e.start <= e.end <= section.len);
                assert(tile_fetchable(img, section, e, codec));
                if lead is None {
                    assert(base <= e.start && e.end <= dir@[n - 1].end);
                }
            }
        }
        if admitted {
            let tile = match lead {
                Some(_) => fetch_tile(reader, section, e, codec)?,
                None => {
                    if e.start < base || e.end < base {
                        return Err(FileError::Container("tile range overflows"));
                    }
                    let start = e.start - base;
                    let end = e.end - base;
                    if start > end || end > body.len() as u64 {
                        return Err(FileError::Container("tile overruns body"));
                    }
                    proof {
                        assert(body@.subrange(start as int, end as int) =~= img.subrange(
                            section.offset + e.start,
                            section.offset + e.end,
                        ));
                    }
                    let t = decompress(codec, vstd::slice::slice_subrange(body.as_slice(), start as usize, end as usize))?;
                    t
                },
            };
            let ms = tile_matches(k, tile.as_slice(), pat);
            let ghost before = out@;
            let mut ms2 = ms;
            out.append(&mut ms2);
        }
        i = i + 1;
    }
    proof {
        assert(dir@.take(n as int) =~= dir@);
    }
    let ghost m = out@;
    let sorted = sort_triples(out);
    proof {
        assert(tiled_answer(img, section, codec, k as int, pat, sorted@));
    }
    Ok(sorted)
}

/// `out` is, sorted, what the section a pattern was routed to holds for it.
pub open spec fn routed_matches(img: Seq<u8>, rp: RoutedPattern, out: Seq<Triple>) -> bool {
    if rp.header.version == NEXT_FORMAT_VERSION {
        family_answer(img, rp.section, rp.header.block_codec, rp.slot as int, rp.pattern, out)
    } else {
        tiled_answer(img, rp.section, rp.header.block_codec, rp.slot as int, rp.pattern, out)
    }
}

/// A routed section a ranged read can answer from: a family section whose
/// admitted records are valid, or a tiled section whose admitted tiles
/// decompress.
pub open spec fn routed_ready(img: Seq<u8>, rp: RoutedPattern) -> bool {
    if rp.header.version == NEXT_FORMAT_VERSION {
        family_fetch_ready(img, rp.section, rp.header.block_codec, rp.slot as int, rp.pattern)
    } else {
        tiled_ready(img, rp.section, rp.header.block_codec, rp.slot as int, rp.pattern)
    }
}

/// Fetch and scan a routed pattern's matches: the section's directory,
/// then only the tiles or records its bounds admit.
fn fetch_routed_matches<R: RangeReader>(reader: &mut R, rp: &RoutedPattern) -> (r: Result<Vec<Triple>, FileError>)
    requires
        rp.slot < 6,
    ensures
        same_source(*final(reader), *old(reader)),
        r matches Ok(out) ==> routed_matches(old(reader).image(), *rp, out@),
        old(reader).reliable() && routed_ready(old(reader).image(), *rp) ==> r is Ok,
        rp.header.version == NEXT_FORMAT_VERSION && rp.section.offset + rp.section.len > u64::MAX ==> r
            == Err::<Vec<Triple>, FileError>(FileError::Container("section range overflows")),
{
    if rp.header.version == NEXT_FORMAT_VERSION {
        proof {
            if reader.reliable() && routed_ready(reader.image(), *rp) {
                let g = choose|g: crate::family::FamilyFields|
                    family_section(reader.image(), rp.section, g) && family_sizes_ok(rp.section, g)
                        && crate::ranged_family::family_matches(
                        g,
                        rp.header.block_codec,
                        crate::ranged_family::sibling_base(g.0, rp.slot as int),
                        g.0 as int,
                        rp.slot as int,
                        rp.pattern,
                    ) is Some;
                assert(family_section(reader.image(), rp.section, g) && family_sizes_ok(rp.section, g));
                assert(crate::ranged_family::family_ready(reader.image(), rp.section));
            }
        }
        let family = read_family_directory_ranged(reader, rp.section)?;
        fetch_family_matches(reader, &family, rp.section, rp.header.block_codec, rp.slot, rp.pattern)
    } else {
        fetch_tiled_matches(reader, rp.section, rp.header.block_codec, rp.slot, rp.pattern)
    }
}

/// What a ranged query answers: nothing when a bound term is unknown, else
/// the terms of the routed section's matches, in order.
pub open spec fn ranged_answer(
    img: Seq<u8>,
    s: Option<Seq<u8>>,
    p: Option<Seq<u8>>,
    o: Option<Seq<u8>>,
    out: Seq<(Seq<u8>, Seq<u8>, Seq<u8>)>,
) -> bool {
    ||| out.len() == 0 && unknown_term(img, s, p, o)
    ||| exists|rp: RoutedPattern, m: Seq<Triple>|
        routed_ok(img, s, p, o, rp) && routed_matches(img, rp, m) && out == resolve_all(rp.dict, m)
}

/// A file a ranged query answers from: the pattern can be routed, and the
/// section it routes to can be read.
pub open spec fn query_ready(img: Seq<u8>, s: Option<Seq<u8>>, p: Option<Seq<u8>>, o: Option<Seq<u8>>) -> bool {
    &&& route_ready(img, s, p, o)
    &&& forall|rp: RoutedPattern| #[trigger] routed_ok(img, s, p, o, rp) ==> routed_ready(img, rp)
}

/// A pattern routed to a section of the file.
pub open spec fn routed_to_section(img: Seq<u8>, s: Option<Seq<u8>>, p: Option<Seq<u8>>, o: Option<Seq<u8>>) -> bool {
    exists|rp: RoutedPattern| routed_ok(img, s, p, o, rp)
}

impl Rete {
    /// Evaluate one triple pattern through a range reader, fetching only
    /// the header, the dictionary, the routed section's directory and the
    /// tiles or records its bounds admit. An unknown bound term answers
    /// nothing before the index is touched.
    pub fn query_ranged<R: RangeReader>(reader: &mut R, s: Option<&str>, p: Option<&str>, o: Option<&str>) -> (r: Result<
        Vec<TermTriple>,
        FileError,
    >)
        ensures
            same_source(*final(reader), *old(reader)),
            r matches Ok(v) ==> ranged_answer(old(reader).image(), opt_bytes(s), opt_bytes(p), opt_bytes(o), tts_view(v@)),
            old(reader).reliable() && query_ready(old(reader).image(), opt_bytes(s), opt_bytes(p), opt_bytes(o)) ==> r is Ok,
    {
        let routed = match route_pattern(reader, s, p, o)? {
            Some(rp) => rp,
            None => {
                let out: Vec<TermTriple> = Vec::new();
                proof {
                    assert(tts_view(out@) =~= Seq::<(Seq<u8>, Seq<u8>, Seq<u8>)>::empty());
                }
                return Ok(out);
            },
        };
        let matches = fetch_routed_matches(reader, &routed)?;
        let out = resolve_triples(&routed.dict, &matches);
        proof {
            assert(routed_ok(reader.image(), opt_bytes(s), opt_bytes(p), opt_bytes(o), routed));
            assert(routed_matches(reader.image(), routed, matches@));
        }
        Ok(out)
    }

    /// Route one triple pattern to its permutation section without
    /// fetching any payload: `false` when a bound term is unknown and the
    /// index was skipped.
    pub fn route_pattern_ranged<R: RangeReader>(reader: &mut R, s: Option<&str>, p: Option<&str>, o: Option<&str>) -> (r:
        Result<bool, FileError>)
        ensures
            same_source(*final(reader), *old(reader)),
            route_reads(old(reader).requests(), final(reader).requests(), old(reader).image()),
            r == Ok::<bool, FileError>(true) ==> routed_to_section(old(reader).image(), opt_bytes(s), opt_bytes(p), opt_bytes(o)),
            r == Ok::<bool, FileError>(false) ==> unknown_term(old(reader).image(), opt_bytes(s), opt_bytes(p), opt_bytes(o)),
            old(reader).reliable() && route_ready(old(reader).image(), opt_bytes(s), opt_bytes(p), opt_bytes(o)) ==> r is Ok,
    {
        match route_pattern(reader, s, p, o)? {
            Some(rp) => {
                proof {
                    assert(routed_ok(reader.image(), opt_bytes(s), opt_bytes(p), opt_bytes(o), rp));
                }
                Ok(true)
            },
            None => Ok(false),
        }
    }
}

} // verus!
