//! The whole file image: how the sections are laid out after the header, the
//! content hash over them, and the edits that reshape a finished image
//! (metadata replacement, build-information splicing).
use vstd::prelude::*;

use crate::codec::FileError;
use crate::header::{
    HeaderError,
    header_view, header_wf, lemma_parse_header_prefix, lemma_view_roundtrip, scalar_fields, scalar_fields_in_range,
    spec_parse_header, view_bytes, view_wf, ExtraSection, Header, HeaderView, HEADER_LEN, MAGIC,
};

verus! {



/// Index of each scalar header field in [`scalar_fields`].
pub const F_FLAGS: usize = 0;
pub const F_META_OFF: usize = 1;
pub const F_META_LEN: usize = 2;
pub const F_DICT_OFF: usize = 3;
pub const F_DICT_LEN: usize = 4;
pub const F_ROOT_OFF: usize = 5;
pub const F_ROOT_LEN: usize = 6;
pub const F_PYR_OFF: usize = 7;
pub const F_PYR_LEN: usize = 8;
pub const F_DICT_CODEC: usize = 9;
pub const F_BLOCK_CODEC: usize = 10;
pub const F_LEVELS: usize = 11;
pub const F_PERMS: usize = 12;
pub const F_QUADS: usize = 13;
pub const F_TERMS: usize = 14;
pub const F_NAMED_OFF: usize = 15;
pub const F_NAMED_LEN: usize = 16;
pub const F_SCHEMA_LEN: usize = 17;
pub const F_TEXT_OFF: usize = 18;
pub const F_TEXT_LEN: usize = 19;
pub const F_BUILD_OFF: usize = 20;
pub const F_BUILD_LEN: usize = 21;

/// A byte range in the file image.
#[derive(Debug, Clone, Copy, PartialEq, Eq)]
pub struct ByteRange {
    pub offset: u64,
    pub len: u64,
}

impl ByteRange {
    /// One past the last byte of the range.
    pub fn end(self) -> (r: u64)
        requires
            self.offset + self.len <= u64::MAX,
        ensures
            r == self.offset + self.len,
    {
        self.offset + self.len
    }
}

/// The BLAKE3 digest of `data` (32 bytes).
pub uninterp spec fn blake3_hash(data: Seq<u8>) -> Seq<u8>;

/// Calls `blake3::hash`. Claimed: the digest is a function of the input bytes
/// alone (`blake3_hash`) and is 32 bytes long (`blake3::OUT_LEN`).
#[verifier::external_body]
fn blake3_digest(data: &[u8]) -> (r: Vec<u8>)
    ensures
        r@ == blake3_hash(data@),
        r@.len() == 32,
{
    blake3::hash(data).as_bytes().to_vec()
}

/// The content hash of a list of sections: the first 16 bytes of the BLAKE3
/// digest of their concatenation.
pub open spec fn spec_content_hash(parts: Seq<Seq<u8>>) -> Seq<u8> {
    Seq::new(16, |i: int| blake3_hash(parts.flatten())[i])
}

/// Content hash (first 16 bytes of BLAKE3) over the payload sections, in order.
pub fn content_hash(parts: &Vec<Vec<u8>>) -> (r: [u8; 16])
    ensures
        r@ == spec_content_hash(parts@.map_values(|p: Vec<u8>| p@)),
{
    let ghost ps = parts@.map_values(|p: Vec<u8>| p@);
    let mut all: Vec<u8> = Vec::new();
    let mut i: usize = 0;
    while i < parts.len()
        invariant
            i <= parts@.len(),
            ps == parts@.map_values(|p: Vec<u8>| p@),
            all@ == ps.take(i as int).flatten(),
        decreases parts@.len() - i,
    {
        proof {
            ps.take(i as int).lemma_flatten_push(ps[i as int]);
            assert(ps.take(i as int).push(ps[i as int]) =~= ps.take(i + 1));
        }
        all.extend_from_slice(parts[i].as_slice());
        i = i + 1;
    }
    proof {
        assert(ps.take(parts@.len() as int) =~= ps);
    }
    let digest = blake3_digest(all.as_slice());
    let mut out = [0u8; 16];
    let mut k: usize = 0;
    while k < 16
        invariant
            k <= 16,
            digest@.len() == 32,
            forall|j: int| 0 <= j < k ==> out@[j] == digest@[j],
        decreases 16 - k,
    {
        out[k] = digest[k];
        k = k + 1;
    }
    proof {
        assert(out@ =~= spec_content_hash(ps));
    }
    out
}

/// Whether `len` bytes at `off` lie inside `bytes`.
pub open spec fn in_image(bytes: Seq<u8>, off: u64, len: u64) -> bool {
    off + len <= bytes.len()
}

/// The `len` bytes at `off`.
pub open spec fn slice_of(bytes: Seq<u8>, off: u64, len: u64) -> Seq<u8> {
    bytes.subrange(off as int, off + len)
}

/// The section list a header's hash covers lies inside the image: the
/// dictionary and index always, the others when the header gives them a length.
pub open spec fn hashed_in_image(f: Seq<u64>, bytes: Seq<u8>) -> bool {
    &&& in_image(bytes, f[F_DICT_OFF as int], f[F_DICT_LEN as int])
    &&& in_image(bytes, f[F_ROOT_OFF as int], f[F_ROOT_LEN as int])
    &&& (f[F_PYR_LEN as int] > 0 ==> in_image(bytes, f[F_PYR_OFF as int], f[F_PYR_LEN as int]))
    &&& (f[F_META_LEN as int] > 0 ==> in_image(bytes, f[F_META_OFF as int], f[F_META_LEN as int]))
    &&& (f[F_TEXT_LEN as int] > 0 ==> in_image(bytes, f[F_TEXT_OFF as int], f[F_TEXT_LEN as int]))
    &&& (f[F_NAMED_LEN as int] > 0 ==> in_image(
        bytes,
        f[F_NAMED_OFF as int],
        f[F_NAMED_LEN as int],
    ))
}

/// The sections the content hash covers, in order: the metadata payload when
/// present, then dictionary, index and pyramid meta (empty when absent), then
/// the text index and the named graphs when present. The build-information
/// section is never among them.
pub open spec fn hashed_parts(f: Seq<u64>, bytes: Seq<u8>) -> Seq<Seq<u8>> {
    let meta = slice_of(bytes, f[F_META_OFF as int], f[F_META_LEN as int]);
    let pyr = if f[F_PYR_LEN as int] > 0 {
        slice_of(bytes, f[F_PYR_OFF as int], f[F_PYR_LEN as int])
    } else {
        Seq::empty()
    };
    (if f[F_META_LEN as int] > 0 {
        seq![meta]
    } else {
        seq![]
    }) + seq![
        slice_of(bytes, f[F_DICT_OFF as int], f[F_DICT_LEN as int]),
        slice_of(bytes, f[F_ROOT_OFF as int], f[F_ROOT_LEN as int]),
        pyr,
    ] + (if f[F_TEXT_LEN as int] > 0 {
        seq![slice_of(bytes, f[F_TEXT_OFF as int], f[F_TEXT_LEN as int])]
    } else {
        seq![]
    }) + (if f[F_NAMED_LEN as int] > 0 {
        seq![slice_of(bytes, f[F_NAMED_OFF as int], f[F_NAMED_LEN as int])]
    } else {
        seq![]
    })
}

/// Copy the `len` bytes at `off` of `bytes`, or the overrun error.
fn section_bytes(bytes: &[u8], off: u64, len: u64) -> (r: Result<Vec<u8>, FileError>)
    ensures
        in_image(bytes@, off, len) ==> (r matches Ok(v) && v@ == slice_of(bytes@, off, len)),
        !in_image(bytes@, off, len) ==> r == Err::<Vec<u8>, FileError>(
            FileError::Container("section overruns buffer"),
        ),
{
    if off > bytes.len() as u64 || len > bytes.len() as u64 - off {
        return Err(FileError::Container("section overruns buffer"));
    }
    let s = vstd::slice::slice_subrange(bytes, off as usize, (off + len) as usize);
    Ok(vstd::slice::slice_to_vec(s))
}

/// The content hash of a file image, folded over exactly the parts the writer
/// hashed ([`hashed_parts`]).
pub fn hash_of_sections(header: &Header, bytes: &[u8]) -> (r: Result<[u8; 16], FileError>)
    ensures
        hashed_in_image(scalar_fields(*header), bytes@) ==> (r matches Ok(x) && x@
            == spec_content_hash(hashed_parts(scalar_fields(*header), bytes@))),
        !hashed_in_image(scalar_fields(*header), bytes@) ==> r == Err::<[u8; 16], FileError>(
            FileError::Container("section overruns buffer"),
        ),
{
    let ghost f = scalar_fields(*header);
    let d = section_bytes(bytes, header.dictionary_offset, header.dictionary_len)?;
    let i = section_bytes(bytes, header.root_dir_offset, header.root_dir_len)?;
    let m = if header.pyramid_meta_len > 0 {
        section_bytes(bytes, header.pyramid_meta_offset, header.pyramid_meta_len)?
    } else {
        Vec::new()
    };
    let mut parts: Vec<Vec<u8>> = Vec::new();
    if header.metadata_len > 0 {
        parts.push(section_bytes(bytes, header.metadata_offset, header.metadata_len)?);
    }
    parts.push(d);
    parts.push(i);
    parts.push(m);
    if header.text_index_len > 0 {
        parts.push(section_bytes(bytes, header.text_index_offset, header.text_index_len)?);
    }
    if header.named_graphs_len > 0 {
        parts.push(section_bytes(bytes, header.named_graphs_offset, header.named_graphs_len)?);
    }
    proof {
        assert(parts@.map_values(|p: Vec<u8>| p@) =~= hashed_parts(f, bytes@));
    }
    Ok(content_hash(&parts))
}

/// What [`verify`] answers on `bytes`.
pub open spec fn spec_verify(bytes: Seq<u8>) -> Result<bool, FileError> {
    match spec_parse_header(bytes) {
        None => Err(FileError::Header(crate::header::HeaderError::Malformed)),
        Some(v) => if hashed_in_image(v.2, bytes) {
            Ok(spec_content_hash(hashed_parts(v.2, bytes)) == v.1)
        } else {
            Err(FileError::Container("section overruns buffer"))
        },
    }
}

/// Recompute the content hash from a file image and check it against the
/// header: detects corruption or truncation of the payload sections.
pub fn verify(bytes: &[u8]) -> (r: Result<bool, FileError>)
    ensures
        match spec_parse_header(bytes@) {
            None => r is Err && (r matches Err(e) && e is Header),
            Some(v) => if hashed_in_image(v.2, bytes@) {
                r == Ok::<bool, FileError>(spec_content_hash(hashed_parts(v.2, bytes@)) == v.1)
            } else {
                r == Err::<bool, FileError>(FileError::Container("section overruns buffer"))
            },
        },
{
    let header = match Header::from_bytes(bytes) {
        Ok(h) => h,
        Err(e) => return Err(FileError::Header(e)),
    };
    let hash = hash_of_sections(&header, bytes)?;
    let mut same = true;
    let mut k: usize = 0;
    while k < 16
        invariant
            k <= 16,
            same <==> (forall|j: int| 0 <= j < k ==> hash@[j] == header.content_hash@[j]),
        decreases 16 - k,
    {
        if hash[k] != header.content_hash[k] {
            same = false;
        }
        k = k + 1;
    }
    proof {
        if same {
            assert(hash@ =~= header.content_hash@);
        }
    }
    Ok(same)
}

/// The scalar header fields of an image laid out as
/// `[header][metadata][dictionary][index][pyramid][text index][named graphs][magic]`.
/// `metadata_offset` is always `HEADER_LEN`; absent optional sections record
/// offset 0.
pub open spec fn layout_fields(
    flags: u32,
    meta_len: u64,
    dict_len: u64,
    index_len: u64,
    pyr_len: u64,
    codec: u8,
    levels: u16,
    perms: u8,
    quads: u64,
    terms: u64,
    text_len: u64,
    named_len: u64,
    schema_len: u32,
) -> Seq<u64> {
    let dict_off = HEADER_LEN + meta_len;
    let index_off = dict_off + dict_len;
    let pyr_off = index_off + index_len;
    let text_off = pyr_off + pyr_len;
    let named_off = text_off + text_len;
    seq![
        flags as u64,
        HEADER_LEN as u64,
        meta_len,
        dict_off as u64,
        dict_len,
        index_off as u64,
        index_len,
        (if pyr_len > 0 { pyr_off } else { 0 }) as u64,
        pyr_len,
        codec as u64,
        codec as u64,
        levels as u64,
        perms as u64,
        quads,
        terms,
        (if named_len > 0 { named_off } else { 0 }) as u64,
        named_len,
        schema_len as u64,
        (if text_len > 0 { text_off } else { 0 }) as u64,
        text_len,
        0,
        0,
    ]
}

/// The sections an assembled image hashes, in order.
pub open spec fn assembled_parts(
    meta: Seq<u8>,
    dict: Seq<u8>,
    index: Seq<u8>,
    pyr: Seq<u8>,
    text: Seq<u8>,
    named: Seq<u8>,
) -> Seq<Seq<u8>> {
    (if meta.len() > 0 {
        seq![meta]
    } else {
        seq![]
    }) + seq![dict, index, pyr] + (if text.len() > 0 {
        seq![text]
    } else {
        seq![]
    }) + (if named.len() > 0 {
        seq![named]
    } else {
        seq![]
    })
}

/// The header an assembled image carries, as plain values.
pub open spec fn assembled_view(
    version: u8,
    flags: u32,
    levels: u16,
    perms: u8,
    quads: u64,
    terms: u64,
    schema_len: u32,
    codec: u8,
    meta: Seq<u8>,
    dict: Seq<u8>,
    index: Seq<u8>,
    pyr: Seq<u8>,
    text: Seq<u8>,
    named: Seq<u8>,
) -> HeaderView {
    (
        version,
        spec_content_hash(assembled_parts(meta, dict, index, pyr, text, named)),
        layout_fields(
            flags,
            meta.len() as u64,
            dict.len() as u64,
            index.len() as u64,
            pyr.len() as u64,
            codec,
            levels,
            perms,
            quads,
            terms,
            text.len() as u64,
            named.len() as u64,
            schema_len,
        ),
        seq![],
    )
}

/// The whole image an assembly writes.
pub open spec fn assembled_image(
    version: u8,
    flags: u32,
    levels: u16,
    perms: u8,
    quads: u64,
    terms: u64,
    schema_len: u32,
    codec: u8,
    meta: Seq<u8>,
    dict: Seq<u8>,
    index: Seq<u8>,
    pyr: Seq<u8>,
    text: Seq<u8>,
    named: Seq<u8>,
) -> Seq<u8> {
    view_bytes(
        assembled_view(
            version,
            flags,
            levels,
            perms,
            quads,
            terms,
            schema_len,
            codec,
            meta,
            dict,
            index,
            pyr,
            text,
            named,
        ),
    ) + meta + dict + index + pyr + text + named + MAGIC@
}

/// Whether the sections of an image fit the offsets a header can record.
pub open spec fn assembly_fits(
    meta: Seq<u8>,
    dict: Seq<u8>,
    index: Seq<u8>,
    pyr: Seq<u8>,
    text: Seq<u8>,
    named: Seq<u8>,
) -> bool {
    HEADER_LEN + meta.len() + dict.len() + index.len() + pyr.len() + text.len() + named.len() + 4
        <= usize::MAX
}

/// Lay out a finished image from encoded sections: the header (with the
/// section directory and the content hash), then metadata, dictionary, index
/// container, pyramid meta, text index and named-graphs sections, then the
/// footer magic. Empty optional sections are omitted and recorded with length 0.
#[verifier::rlimit(50)]
pub fn assemble_image(
    version: u8,
    flags: u32,
    levels: u16,
    perms: u8,
    quads: u64,
    terms: u64,
    schema_len: u32,
    codec: u8,
    meta: &[u8],
    dict: &[u8],
    index: &[u8],
    pyr: &[u8],
    text: &[u8],
    named: &[u8],
) -> (r: Vec<u8>)
    requires
        assembly_fits(meta@, dict@, index@, pyr@, text@, named@),
    ensures
        r@ == assembled_image(
            version,
            flags,
            levels,
            perms,
            quads,
            terms,
            schema_len,
            codec,
            meta@,
            dict@,
            index@,
            pyr@,
            text@,
            named@,
        ),
{
    let meta_len = meta.len() as u64;
    let dict_off = HEADER_LEN as u64 + meta_len;
    let dict_len = dict.len() as u64;
    let index_off = dict_off + dict_len;
    let index_len = index.len() as u64;
    let pyr_off = index_off + index_len;
    let pyr_len = pyr.len() as u64;
    let text_off = pyr_off + pyr_len;
    let text_len = text.len() as u64;
    let named_off = text_off + text_len;
    let named_len = named.len() as u64;
    let mut parts: Vec<Vec<u8>> = Vec::new();
    if meta_len > 0 {
        parts.push(vstd::slice::slice_to_vec(meta));
    }
    parts.push(vstd::slice::slice_to_vec(dict));
    parts.push(vstd::slice::slice_to_vec(index));
    parts.push(vstd::slice::slice_to_vec(pyr));
    if text_len > 0 {
        parts.push(vstd::slice::slice_to_vec(text));
    }
    if named_len > 0 {
        parts.push(vstd::slice::slice_to_vec(named));
    }
    proof {
        assert(parts@.map_values(|p: Vec<u8>| p@) =~= assembled_parts(
            meta@,
            dict@,
            index@,
            pyr@,
            text@,
            named@,
        ));
    }
    let hash = content_hash(&parts);
    let header = Header {
        version,
        flags,
        metadata_offset: HEADER_LEN as u64,
        metadata_len: meta_len,
        dictionary_offset: dict_off,
        dictionary_len: dict_len,
        root_dir_offset: index_off,
        root_dir_len: index_len,
        pyramid_meta_offset: if pyr_len > 0 { pyr_off } else { 0 },
        pyramid_meta_len: pyr_len,
        dict_codec: codec,
        block_codec: codec,
        pyramid_levels: levels,
        perms,
        quad_count: quads,
        term_count: terms,
        content_hash: hash,
        named_graphs_offset: if named_len > 0 { named_off } else { 0 },
        named_graphs_len: named_len,
        schema_meta_len: schema_len,
        text_index_offset: if text_len > 0 { text_off } else { 0 },
        text_index_len: text_len,
        build_info_offset: 0,
        build_info_len: 0,
        extra_sections: Vec::new(),
    };
    let ghost v = assembled_view(
        version,
        flags,
        levels,
        perms,
        quads,
        terms,
        schema_len,
        codec,
        meta@,
        dict@,
        index@,
        pyr@,
        text@,
        named@,
    );
    assert(header_view(header) =~= v);
    let mut out = header.to_bytes();
    out.extend_from_slice(meta);
    out.extend_from_slice(dict);
    out.extend_from_slice(index);
    out.extend_from_slice(pyr);
    out.extend_from_slice(text);
    out.extend_from_slice(named);
    out.push(MAGIC[0]);
    out.push(MAGIC[1]);
    out.push(MAGIC[2]);
    out.push(MAGIC[3]);
    proof {
        assert(out@ =~= assembled_image(
            version,
            flags,
            levels,
            perms,
            quads,
            terms,
            schema_len,
            codec,
            meta@,
            dict@,
            index@,
            pyr@,
            text@,
            named@,
        ));
    }
    out
}

/// The sections at the offsets an assembled layout records are the sections
/// that follow its header, whatever hash the header carries.
#[verifier::rlimit(80)]
#[verifier::spinoff_prover]
pub proof fn lemma_layout_parts(
    version: u8,
    hash: Seq<u8>,
    flags: u32,
    levels: u16,
    perms: u8,
    quads: u64,
    terms: u64,
    schema_len: u32,
    codec: u8,
    meta: Seq<u8>,
    dict: Seq<u8>,
    index: Seq<u8>,
    pyr: Seq<u8>,
    text: Seq<u8>,
    named: Seq<u8>,
)
    requires
        assembly_fits(meta, dict, index, pyr, text, named),
        hash.len() == 16,
    ensures
        ({
            let f = layout_fields(flags, meta.len() as u64, dict.len() as u64, index.len() as u64, pyr.len() as u64, codec, levels, perms, quads, terms, text.len() as u64, named.len() as u64, schema_len);
            let img = view_bytes((version, hash, f, seq![])) + meta + dict + index + pyr + text + named + MAGIC@;
            &&& view_wf((version, hash, f, seq![]))
            &&& spec_parse_header(img) == Some((version, hash, f, Seq::<ExtraSection>::empty()))
            &&& hashed_in_image(f, img)
            &&& hashed_parts(f, img) == assembled_parts(meta, dict, index, pyr, text, named)
            &&& slice_of(img, f[F_DICT_OFF as int], f[F_DICT_LEN as int]) == dict
            &&& slice_of(img, f[F_ROOT_OFF as int], f[F_ROOT_LEN as int]) == index
        }),
{
    let f = layout_fields(flags, meta.len() as u64, dict.len() as u64, index.len() as u64, pyr.len() as u64, codec, levels, perms, quads, terms, text.len() as u64, named.len() as u64, schema_len);
    let v = (version, hash, f, Seq::<ExtraSection>::empty());
    let img = view_bytes(v) + meta + dict + index + pyr + text + named + MAGIC@;
    let hb = view_bytes(v);
    assert(view_wf(v));
    lemma_view_roundtrip(v);
    let rest = meta + dict + index + pyr + text + named + MAGIC@;
    assert(img =~= hb + rest);
    lemma_parse_header_prefix(hb, rest);
    assert(slice_of(img, f[F_DICT_OFF as int], f[F_DICT_LEN as int]) =~= dict);
    assert(slice_of(img, f[F_ROOT_OFF as int], f[F_ROOT_LEN as int]) =~= index);
    if pyr.len() > 0 {
        assert(slice_of(img, f[F_PYR_OFF as int], f[F_PYR_LEN as int]) =~= pyr);
    }
    if meta.len() > 0 {
        assert(slice_of(img, f[F_META_OFF as int], f[F_META_LEN as int]) =~= meta);
    }
    if text.len() > 0 {
        assert(slice_of(img, f[F_TEXT_OFF as int], f[F_TEXT_LEN as int]) =~= text);
    }
    if named.len() > 0 {
        assert(slice_of(img, f[F_NAMED_OFF as int], f[F_NAMED_LEN as int]) =~= named);
    }
    assert(hashed_in_image(f, img));
    assert(hashed_parts(f, img) =~= assembled_parts(meta, dict, index, pyr, text, named)) by {
        broadcast use vstd::seq_lib::group_seq_properties;
    }
}

/// The metadata section an assembled layout records is the metadata that
/// follows its header.
pub proof fn lemma_layout_meta(
    version: u8,
    hash: Seq<u8>,
    flags: u32,
    levels: u16,
    perms: u8,
    quads: u64,
    terms: u64,
    schema_len: u32,
    codec: u8,
    meta: Seq<u8>,
    dict: Seq<u8>,
    index: Seq<u8>,
    pyr: Seq<u8>,
    text: Seq<u8>,
    named: Seq<u8>,
)
    requires
        assembly_fits(meta, dict, index, pyr, text, named),
        hash.len() == 16,
    ensures
        ({
            let f = layout_fields(flags, meta.len() as u64, dict.len() as u64, index.len() as u64, pyr.len() as u64, codec, levels, perms, quads, terms, text.len() as u64, named.len() as u64, schema_len);
            let img = view_bytes((version, hash, f, seq![])) + meta + dict + index + pyr + text + named + MAGIC@;
            &&& f[F_META_LEN as int] == meta.len()
            &&& meta.len() > 0 ==> slice_of(img, f[F_META_OFF as int], f[F_META_LEN as int]) == meta
        }),
{
    let f = layout_fields(flags, meta.len() as u64, dict.len() as u64, index.len() as u64, pyr.len() as u64, codec, levels, perms, quads, terms, text.len() as u64, named.len() as u64, schema_len);
    let v = (version, hash, f, Seq::<ExtraSection>::empty());
    let img = view_bytes(v) + meta + dict + index + pyr + text + named + MAGIC@;
    assert(view_wf(v));
    lemma_view_roundtrip(v);
    if meta.len() > 0 {
        assert(slice_of(img, f[F_META_OFF as int], f[F_META_LEN as int]) =~= meta);
    }
}

/// The writer law: an assembled image reads back its own header, and its
/// content hash verifies.
pub proof fn lemma_assembled_image_verifies(
    version: u8,
    flags: u32,
    levels: u16,
    perms: u8,
    quads: u64,
    terms: u64,
    schema_len: u32,
    codec: u8,
    meta: Seq<u8>,
    dict: Seq<u8>,
    index: Seq<u8>,
    pyr: Seq<u8>,
    text: Seq<u8>,
    named: Seq<u8>,
)
    requires
        assembly_fits(meta, dict, index, pyr, text, named),
    ensures
        spec_parse_header(
            assembled_image(version, flags, levels, perms, quads, terms, schema_len, codec, meta, dict, index, pyr, text, named),
        ) == Some(
            assembled_view(version, flags, levels, perms, quads, terms, schema_len, codec, meta, dict, index, pyr, text, named),
        ),
        spec_verify(
            assembled_image(version, flags, levels, perms, quads, terms, schema_len, codec, meta, dict, index, pyr, text, named),
        ) == Ok::<bool, FileError>(true),
{
    let v = assembled_view(version, flags, levels, perms, quads, terms, schema_len, codec, meta, dict, index, pyr, text, named);
    lemma_layout_parts(version, v.1, flags, levels, perms, quads, terms, schema_len, codec, meta, dict, index, pyr, text, named);
}

/// Where a section at `off` (of `len` bytes) moves when the bytes
/// `[tail - old_len, tail)` are replaced by `new_len` bytes: sections at or
/// after `tail` move by the length delta; the others stay.
pub open spec fn shifted(off: u64, len: u64, tail: u64, old_len: u64, new_len: u64) -> int {
    if len > 0 && off >= tail {
        off - old_len + new_len
    } else {
        off as int
    }
}

/// Whether every shifted offset still fits a `u64`.
pub open spec fn shift_fits(
    f: Seq<u64>,
    extras: Seq<ExtraSection>,
    tail: u64,
    old_len: u64,
    new_len: u64,
    build_too: bool,
) -> bool {
    &&& shifted(f[F_DICT_OFF as int], f[F_DICT_LEN as int], tail, old_len, new_len) <= u64::MAX
    &&& shifted(f[F_ROOT_OFF as int], f[F_ROOT_LEN as int], tail, old_len, new_len) <= u64::MAX
    &&& shifted(f[F_PYR_OFF as int], f[F_PYR_LEN as int], tail, old_len, new_len) <= u64::MAX
    &&& shifted(f[F_NAMED_OFF as int], f[F_NAMED_LEN as int], tail, old_len, new_len)
        <= u64::MAX
    &&& shifted(f[F_TEXT_OFF as int], f[F_TEXT_LEN as int], tail, old_len, new_len) <= u64::MAX
    &&& (build_too ==> shifted(f[F_BUILD_OFF as int], f[F_BUILD_LEN as int], tail, old_len, new_len)
        <= u64::MAX)
    &&& forall|i: int|
        0 <= i < extras.len() ==> shifted(
            #[trigger] extras[i].offset,
            extras[i].length,
            tail,
            old_len,
            new_len,
        ) <= u64::MAX
}

/// The scalar fields with every section offset moved by [`shifted`]; the
/// build-information offset too when `build_too`.
pub open spec fn shift_scalars(
    f: Seq<u64>,
    tail: u64,
    old_len: u64,
    new_len: u64,
    build_too: bool,
) -> Seq<u64> {
    let g = f.update(
        F_DICT_OFF as int,
        shifted(f[F_DICT_OFF as int], f[F_DICT_LEN as int], tail, old_len, new_len) as u64,
    ).update(
        F_ROOT_OFF as int,
        shifted(f[F_ROOT_OFF as int], f[F_ROOT_LEN as int], tail, old_len, new_len) as u64,
    ).update(
        F_PYR_OFF as int,
        shifted(f[F_PYR_OFF as int], f[F_PYR_LEN as int], tail, old_len, new_len) as u64,
    ).update(
        F_NAMED_OFF as int,
        shifted(f[F_NAMED_OFF as int], f[F_NAMED_LEN as int], tail, old_len, new_len) as u64,
    ).update(
        F_TEXT_OFF as int,
        shifted(f[F_TEXT_OFF as int], f[F_TEXT_LEN as int], tail, old_len, new_len) as u64,
    );
    if build_too {
        g.update(
            F_BUILD_OFF as int,
            shifted(f[F_BUILD_OFF as int], f[F_BUILD_LEN as int], tail, old_len, new_len) as u64,
        )
    } else {
        g
    }
}

/// The extra sections with their offsets moved by [`shifted`].
pub open spec fn shift_extras(
    extras: Seq<ExtraSection>,
    tail: u64,
    old_len: u64,
    new_len: u64,
) -> Seq<ExtraSection> {
    extras.map_values(
        |e: ExtraSection|
            ExtraSection {
                kind: e.kind,
                offset: shifted(e.offset, e.length, tail, old_len, new_len) as u64,
                length: e.length,
            },
    )
}

/// One shifted offset, or `None` when it would not fit.
fn shift_one(off: u64, len: u64, tail: u64, old_len: u64, new_len: u64) -> (r: Option<u64>)
    requires
        tail >= old_len,
    ensures
        shifted(off, len, tail, old_len, new_len) <= u64::MAX ==> r == Some(
            shifted(off, len, tail, old_len, new_len) as u64,
        ),
        shifted(off, len, tail, old_len, new_len) > u64::MAX ==> r is None,
{
    if len > 0 && off >= tail {
        let base = off - old_len;
        if new_len > u64::MAX - base {
            None
        } else {
            Some(base + new_len)
        }
    } else {
        Some(off)
    }
}

/// Move every section offset of `header` that lies at or after `tail` by
/// `new_len - old_len` (the build-information offset too when `build_too`);
/// `false`, with the header unusable, when an offset would not fit.
fn shift_sections(
    header: &mut Header,
    tail: u64,
    old_len: u64,
    new_len: u64,
    build_too: bool,
) -> (ok: bool)
    requires
        tail >= old_len,
    ensures
        ok == shift_fits(
            scalar_fields(*old(header)),
            old(header).extra_sections@,
            tail,
            old_len,
            new_len,
            build_too,
        ),
        ok ==> scalar_fields(*final(header)) == shift_scalars(
            scalar_fields(*old(header)),
            tail,
            old_len,
            new_len,
            build_too,
        ),
        ok ==> final(header).extra_sections@ == shift_extras(
            old(header).extra_sections@,
            tail,
            old_len,
            new_len,
        ),
        final(header).version == old(header).version,
        final(header).content_hash == old(header).content_hash,
{
    let ghost f = scalar_fields(*header);
    let ghost ex = header.extra_sections@;
    let d = match shift_one(header.dictionary_offset, header.dictionary_len, tail, old_len, new_len) {
        Some(x) => x,
        None => return false,
    };
    let r = match shift_one(header.root_dir_offset, header.root_dir_len, tail, old_len, new_len) {
        Some(x) => x,
        None => return false,
    };
    let p = match shift_one(header.pyramid_meta_offset, header.pyramid_meta_len, tail, old_len, new_len) {
        Some(x) => x,
        None => return false,
    };
    let n = match shift_one(header.named_graphs_offset, header.named_graphs_len, tail, old_len, new_len) {
        Some(x) => x,
        None => return false,
    };
    let t = match shift_one(header.text_index_offset, header.text_index_len, tail, old_len, new_len) {
        Some(x) => x,
        None => return false,
    };
    let b = if build_too {
        match shift_one(header.build_info_offset, header.build_info_len, tail, old_len, new_len) {
            Some(x) => x,
            None => return false,
        }
    } else {
        header.build_info_offset
    };
    let mut extras: Vec<ExtraSection> = Vec::new();
    let mut i: usize = 0;
    while i < header.extra_sections.len()
        invariant
            i <= ex.len(),
            header.extra_sections@ == ex,
            tail >= old_len,
            forall|j: int| 0 <= j < i ==> shifted(#[trigger] ex[j].offset, ex[j].length, tail, old_len, new_len) <= u64::MAX,
            extras@ =~= shift_extras(ex, tail, old_len, new_len).take(i as int),
        decreases ex.len() - i,
    {
        let e = header.extra_sections[i];
        match shift_one(e.offset, e.length, tail, old_len, new_len) {
            Some(o) => {
                extras.push(ExtraSection { kind: e.kind, offset: o, length: e.length });
            },
            None => {
                proof {
                    assert(!shift_fits(f, ex, tail, old_len, new_len, build_too)) by {
                        assert(shifted(ex[i as int].offset, ex[i as int].length, tail, old_len, new_len) > u64::MAX);
                    }
                }
                return false;
            },
        }
        i = i + 1;
    }
    proof {
        assert(shift_extras(ex, tail, old_len, new_len).take(ex.len() as int) =~= shift_extras(ex, tail, old_len, new_len));
    }
    header.dictionary_offset = d;
    header.root_dir_offset = r;
    header.pyramid_meta_offset = p;
    header.named_graphs_offset = n;
    header.text_index_offset = t;
    header.build_info_offset = b;
    header.extra_sections = extras;
    proof {
        assert(scalar_fields(*header) =~= shift_scalars(f, tail, old_len, new_len, build_too));
    }
    true
}

/// Everything needed to splice a build-information section into a finished
/// file without holding it in memory: the rewritten header, where the section
/// goes, and where the bytes that do not move resume. The layout is always
/// `[header][metadata][build info][everything else, verbatim]`.
#[derive(Debug, Clone, PartialEq, Eq)]
pub struct BuildInfoPlan {
    /// The `HEADER_LEN` header bytes to write at offset 0.
    pub header: Vec<u8>,
    /// Offset the new section is written at: the length of the unchanged
    /// `[header][metadata]` prefix.
    pub insert: u64,
    /// Offset in the old file where the bytes that do not move resume; the
    /// span `insert..tail_start` is the old build-information section, if any.
    pub tail_start: u64,
    /// Length of the file the plan produces.
    pub new_len: u64,
}

/// The error a spec stands for when the header itself does not read.
pub open spec fn header_error() -> FileError {
    FileError::Header(HeaderError::Malformed)
}

/// Whether a result agrees with a spec result, any header error standing for
/// any other.
pub open spec fn same_error<T>(r: Result<T, FileError>, e: FileError) -> bool {
    if e is Header {
        r matches Err(x) && x is Header
    } else {
        r == Err::<T, FileError>(e)
    }
}

/// What [`plan_build_info`] decides: the new header (as plain values), the
/// insert point, the tail start and the new length.
pub open spec fn spec_plan_build_info(head: Seq<u8>, file_len: u64, info_len: u64) -> Result<
    (HeaderView, u64, u64, u64),
    FileError,
> {
    match spec_parse_header(head) {
        None => Err(header_error()),
        Some(v) => {
            let f = v.2;
            if f[F_META_LEN as int] > u64::MAX - HEADER_LEN {
                Err(FileError::Container("build-info splice out of bounds"))
            } else {
                let insert = (HEADER_LEN + f[F_META_LEN as int]) as u64;
                let old_len = f[F_BUILD_LEN as int];
                if old_len > 0 && f[F_BUILD_OFF as int] != insert {
                    Err(
                        FileError::Container(
                            "existing build-info section is not adjacent to the metadata",
                        ),
                    )
                } else {
                    let tail = if insert + old_len > u64::MAX {
                        u64::MAX
                    } else {
                        (insert + old_len) as u64
                    };
                    if tail > file_len || insert > file_len || !shift_fits(
                        f,
                        v.3,
                        tail,
                        old_len,
                        info_len,
                        false,
                    ) || file_len - old_len + info_len > u64::MAX {
                        Err(FileError::Container("build-info splice out of bounds"))
                    } else {
                        let g = shift_scalars(f, tail, old_len, info_len, false);
                        let g2 = if info_len == 0 {
                            g.update(F_BUILD_OFF as int, 0).update(F_BUILD_LEN as int, 0)
                        } else {
                            g.update(F_BUILD_OFF as int, insert).update(
                                F_BUILD_LEN as int,
                                info_len,
                            )
                        };
                        Ok(
                            (
                                (v.0, v.1, g2, shift_extras(v.3, tail, old_len, info_len)),
                                insert,
                                tail,
                                (file_len - old_len + info_len) as u64,
                            ),
                        )
                    }
                }
            }
        },
    }
}

/// Plan the splice of a build-information section of `info_len` bytes into a
/// file whose header is at the front of `head` and whose total length is
/// `file_len`. The section goes immediately after the metadata section, and
/// every later section moves by the length delta. The content hash is left
/// untouched: build information is outside it. `info_len` of 0 plans the
/// removal of an existing section. A shift that would carry an offset or the
/// new length past `u64::MAX` is refused as out of bounds.
pub fn plan_build_info(head: &[u8], file_len: u64, info_len: u64) -> (r: Result<
    BuildInfoPlan,
    FileError,
>)
    ensures
        match spec_plan_build_info(head@, file_len, info_len) {
            Ok((v, insert, tail, new_len)) => r matches Ok(p) && p.header@ == view_bytes(v)
                && p.insert == insert && p.tail_start == tail && p.new_len == new_len,
            Err(e) => same_error(r, e),
        },
{
    let mut header = match Header::from_bytes(head) {
        Ok(h) => h,
        Err(e) => return Err(FileError::Header(e)),
    };
    let ghost v = header_view(header);
    if header.metadata_len > u64::MAX - HEADER_LEN as u64 {
        return Err(FileError::Container("build-info splice out of bounds"));
    }
    let insert = HEADER_LEN as u64 + header.metadata_len;
    let old_len = header.build_info_len;
    if old_len > 0 && header.build_info_offset != insert {
        return Err(
            FileError::Container("existing build-info section is not adjacent to the metadata"),
        );
    }
    let tail_start = insert.saturating_add(old_len);
    if tail_start > file_len || insert > file_len {
        return Err(FileError::Container("build-info splice out of bounds"));
    }
    if !shift_sections(&mut header, tail_start, old_len, info_len, false) {
        return Err(FileError::Container("build-info splice out of bounds"));
    }
    if info_len > u64::MAX - (file_len - old_len) {
        return Err(FileError::Container("build-info splice out of bounds"));
    }
    if info_len == 0 {
        header.build_info_offset = 0;
        header.build_info_len = 0;
    } else {
        header.build_info_offset = insert;
        header.build_info_len = info_len;
    }
    proof {
        let g = shift_scalars(v.2, tail_start, old_len, info_len, false);
        if info_len == 0 {
            assert(scalar_fields(header) =~= g.update(F_BUILD_OFF as int, 0).update(F_BUILD_LEN as int, 0));
        } else {
            assert(scalar_fields(header) =~= g.update(F_BUILD_OFF as int, insert).update(F_BUILD_LEN as int, info_len));
        }
    }
    let bytes = header.to_bytes();
    Ok(
        BuildInfoPlan {
            header: bytes,
            insert,
            tail_start,
            new_len: file_len - old_len + info_len,
        },
    )
}

/// What [`attach_build_info`] returns on `image` and `info`.
pub open spec fn spec_attach_build_info(image: Seq<u8>, info: Seq<u8>) -> Result<Seq<u8>, FileError> {
    match spec_plan_build_info(image, image.len() as u64, info.len() as u64) {
        Ok((v, insert, tail, _)) => Ok(
            view_bytes(v) + image.subrange(HEADER_LEN as int, insert as int) + info
                + image.subrange(tail as int, image.len() as int),
        ),
        Err(e) => Err(e),
    }
}

/// Attach (or replace) the build-information section of a finished file
/// image, returning the new image; see [`plan_build_info`]. An empty `info`
/// removes an existing section.
pub fn attach_build_info(image: &[u8], info: &[u8]) -> (r: Result<Vec<u8>, FileError>)
    ensures
        match spec_attach_build_info(image@, info@) {
            Ok(out) => r matches Ok(x) && x@ == out,
            Err(e) => same_error(r, e),
        },
{
    let plan = plan_build_info(image, image.len() as u64, info.len() as u64)?;
    proof {
        crate::header::lemma_parse_header_len(image@);
    }
    let mut out = plan.header;
    out.extend_from_slice(vstd::slice::slice_subrange(image, HEADER_LEN, plan.insert as usize));
    out.extend_from_slice(info);
    out.extend_from_slice(vstd::slice::slice_subrange(image, plan.tail_start as usize, image.len()));
    Ok(out)
}

/// What [`read_build_info`] returns.
pub open spec fn spec_read_build_info(bytes: Seq<u8>) -> Result<Option<Seq<u8>>, FileError> {
    match spec_parse_header(bytes) {
        None => Err(header_error()),
        Some(v) => if v.2[F_BUILD_LEN as int] == 0 {
            Ok(None)
        } else if in_image(bytes, v.2[F_BUILD_OFF as int], v.2[F_BUILD_LEN as int]) {
            Ok(Some(slice_of(bytes, v.2[F_BUILD_OFF as int], v.2[F_BUILD_LEN as int])))
        } else {
            Err(FileError::Container("build-info section overruns buffer"))
        },
    }
}

/// The build-information section of a whole file image, or `None` if absent.
/// The payload is opaque and not covered by the content hash.
pub fn read_build_info(bytes: &[u8]) -> (r: Result<Option<Vec<u8>>, FileError>)
    ensures
        match spec_read_build_info(bytes@) {
            Ok(None) => r matches Ok(None),
            Ok(Some(b)) => r matches Ok(Some(x)) && x@ == b,
            Err(e) => same_error(r, e),
        },
{
    let header = match Header::from_bytes(bytes) {
        Ok(h) => h,
        Err(e) => return Err(FileError::Header(e)),
    };
    if header.build_info_len == 0 {
        return Ok(None);
    }
    match section_bytes(bytes, header.build_info_offset, header.build_info_len) {
        Ok(v) => Ok(Some(v)),
        Err(_) => Err(FileError::Container("build-info section overruns buffer")),
    }
}

/// The scalar fields after the metadata section `[HEADER_LEN, HEADER_LEN +
/// old_len)` is replaced by `new_len` bytes.
pub open spec fn metadata_fields(f: Seq<u64>, new_len: u64) -> Seq<u64> {
    shift_scalars(
        f,
        (HEADER_LEN + f[F_META_LEN as int]) as u64,
        f[F_META_LEN as int],
        new_len,
        true,
    ).update(F_META_OFF as int, HEADER_LEN as u64).update(F_META_LEN as int, new_len)
}

/// What [`replace_metadata`] returns on `image` and `metadata`.
pub open spec fn spec_replace_metadata(image: Seq<u8>, metadata: Seq<u8>) -> Result<
    Seq<u8>,
    FileError,
> {
    match spec_parse_header(image) {
        None => Err(header_error()),
        Some(v) => {
            let f = v.2;
            let old_len = f[F_META_LEN as int];
            if old_len > 0 && f[F_META_OFF as int] != HEADER_LEN {
                Err(
                    FileError::Container(
                        "metadata section does not sit immediately after the header",
                    ),
                )
            } else if HEADER_LEN + old_len > image.len() {
                Err(FileError::Container("metadata splice out of bounds"))
            } else {
                let tail = (HEADER_LEN + old_len) as u64;
                let new_len = metadata.len() as u64;
                if !shift_fits(f, v.3, tail, old_len, new_len, true) {
                    Err(FileError::Container("metadata splice out of bounds"))
                } else {
                    let g = metadata_fields(f, new_len);
                    let ex = shift_extras(v.3, tail, old_len, new_len);
                    let rest = metadata + image.subrange(tail as int, image.len() as int);
                    let body = view_bytes((v.0, v.1, g, ex)) + rest;
                    if hashed_in_image(g, body) {
                        Ok(
                            view_bytes((v.0, spec_content_hash(hashed_parts(g, body)), g, ex))
                                + rest,
                        )
                    } else {
                        Err(FileError::Container("section overruns buffer"))
                    }
                }
            }
        },
    }
}

/// Replace the metadata section (the opaque dataset-card payload) of a
/// finished file image, returning the new image. The section is the first
/// after the header, so every later section moves by the length delta; the
/// metadata is inside the content hash, so the hash is recomputed over the
/// same parts [`verify`] rebuilds. An empty payload removes the section.
#[verifier::rlimit(30)]
pub fn replace_metadata(image: &[u8], metadata: &[u8]) -> (r: Result<Vec<u8>, FileError>)
    ensures
        match spec_replace_metadata(image@, metadata@) {
            Ok(out) => r matches Ok(x) && x@ == out,
            Err(e) => same_error(r, e),
        },
{
    let mut header = match Header::from_bytes(image) {
        Ok(h) => h,
        Err(e) => return Err(FileError::Header(e)),
    };
    let ghost v = header_view(header);
    let insert = HEADER_LEN as u64;
    if header.metadata_len > 0 && header.metadata_offset != insert {
        return Err(
            FileError::Container("metadata section does not sit immediately after the header"),
        );
    }
    let old_len = header.metadata_len;
    if old_len > image.len() as u64 - insert {
        return Err(FileError::Container("metadata splice out of bounds"));
    }
    let tail_start = insert + old_len;
    let new_len = metadata.len() as u64;
    if !shift_sections(&mut header, tail_start, old_len, new_len, true) {
        return Err(FileError::Container("metadata splice out of bounds"));
    }
    header.metadata_offset = insert;
    header.metadata_len = new_len;
    let ghost g = metadata_fields(v.2, new_len);
    proof {
        assert(scalar_fields(header) =~= g);
    }
    let ghost ex = shift_extras(v.3, tail_start, old_len, new_len);
    let ghost rest = metadata@ + image@.subrange(tail_start as int, image@.len() as int);
    assert(header_view(header) == (v.0, v.1, g, ex));
    let mut out = header.to_bytes();
    out.extend_from_slice(metadata);
    out.extend_from_slice(vstd::slice::slice_subrange(image, tail_start as usize, image.len()));
    assert(out@ =~= view_bytes((v.0, v.1, g, ex)) + rest);
    let hash = match hash_of_sections(&header, out.as_slice()) {
        Ok(h) => h,
        Err(e) => return Err(e),
    };
    header.content_hash = hash;
    assert(header_view(header) == (v.0, hash@, g, ex));
    let head = header.to_bytes();
    let mut result = head;
    result.extend_from_slice(metadata);
    result.extend_from_slice(vstd::slice::slice_subrange(image, tail_start as usize, image.len()));
    assert(result@ =~= view_bytes((v.0, hash@, g, ex)) + rest);
    Ok(result)
}

/// The metadata law: replacing the metadata of a written image gives exactly
/// the image the writer produces when handed the new metadata directly.
#[verifier::rlimit(80)]
#[verifier::spinoff_prover]
pub proof fn lemma_replace_metadata_is_direct_write(
    version: u8,
    flags: u32,
    levels: u16,
    perms: u8,
    quads: u64,
    terms: u64,
    schema_len: u32,
    codec: u8,
    meta: Seq<u8>,
    new_meta: Seq<u8>,
    dict: Seq<u8>,
    index: Seq<u8>,
    pyr: Seq<u8>,
    text: Seq<u8>,
    named: Seq<u8>,
)
    requires
        assembly_fits(meta, dict, index, pyr, text, named),
        assembly_fits(new_meta, dict, index, pyr, text, named),
        dict.len() > 0,
        index.len() > 0,
    ensures
        spec_replace_metadata(
            assembled_image(version, flags, levels, perms, quads, terms, schema_len, codec, meta, dict, index, pyr, text, named),
            new_meta,
        ) == Ok::<Seq<u8>, FileError>(
            assembled_image(version, flags, levels, perms, quads, terms, schema_len, codec, new_meta, dict, index, pyr, text, named),
        ),
{
    let v = assembled_view(version, flags, levels, perms, quads, terms, schema_len, codec, meta, dict, index, pyr, text, named);
    let img = assembled_image(version, flags, levels, perms, quads, terms, schema_len, codec, meta, dict, index, pyr, text, named);
    lemma_assembled_image_verifies(version, flags, levels, perms, quads, terms, schema_len, codec, meta, dict, index, pyr, text, named);
    let f = v.2;
    let tail = (HEADER_LEN + meta.len()) as u64;
    let new_len = new_meta.len() as u64;
    let g = metadata_fields(f, new_len);
    let g2 = layout_fields(flags, new_len, dict.len() as u64, index.len() as u64, pyr.len() as u64, codec, levels, perms, quads, terms, text.len() as u64, named.len() as u64, schema_len);
    assert(shift_fits(f, seq![], tail, meta.len() as u64, new_len, true));
    assert(g =~= g2) by {
        let h = shift_scalars(f, tail, meta.len() as u64, new_len, true);
        assert(h[F_DICT_OFF as int] == g2[F_DICT_OFF as int]);
        assert(h[F_ROOT_OFF as int] == g2[F_ROOT_OFF as int]);
        assert(h[F_PYR_OFF as int] == g2[F_PYR_OFF as int]);
        assert(h[F_NAMED_OFF as int] == g2[F_NAMED_OFF as int]);
        assert(h[F_TEXT_OFF as int] == g2[F_TEXT_OFF as int]);
        assert(h[F_BUILD_OFF as int] == g2[F_BUILD_OFF as int]);
    }
    let ex = shift_extras(Seq::<ExtraSection>::empty(), tail, meta.len() as u64, new_len);
    assert(ex =~= Seq::<ExtraSection>::empty());
    let tail_bytes = img.subrange(tail as int, img.len() as int);
    lemma_view_roundtrip(v);
    assert(tail_bytes =~= dict + index + pyr + text + named + MAGIC@);
    let body = view_bytes((v.0, v.1, g, ex)) + (new_meta + tail_bytes);
    assert(body =~= view_bytes((v.0, v.1, g2, seq![])) + new_meta + dict + index + pyr + text + named + MAGIC@);
    lemma_layout_parts(version, v.1, flags, levels, perms, quads, terms, schema_len, codec, new_meta, dict, index, pyr, text, named);
    let out = view_bytes((v.0, spec_content_hash(hashed_parts(g, body)), g, ex)) + (new_meta + tail_bytes);
    assert(out =~= assembled_image(version, flags, levels, perms, quads, terms, schema_len, codec, new_meta, dict, index, pyr, text, named));
}

/// The header fields of a written image after build information of `k`
/// bytes is attached.
pub open spec fn attached_fields(f: Seq<u64>, insert: u64, k: u64) -> Seq<u64> {
    shift_scalars(f, insert, 0, k, false).update(F_BUILD_OFF as int, insert).update(
        F_BUILD_LEN as int,
        k,
    )
}

/// What attaching build information to a written image produces.
#[verifier::rlimit(80)]
#[verifier::spinoff_prover]
proof fn lemma_attach_shape(
    version: u8,
    flags: u32,
    levels: u16,
    perms: u8,
    quads: u64,
    terms: u64,
    schema_len: u32,
    codec: u8,
    meta: Seq<u8>,
    dict: Seq<u8>,
    index: Seq<u8>,
    pyr: Seq<u8>,
    text: Seq<u8>,
    named: Seq<u8>,
    info: Seq<u8>,
)
    requires
        assembly_fits(meta, dict, index, pyr, text, named + info),
        info.len() > 0,
    ensures
        ({
            let img = assembled_image(version, flags, levels, perms, quads, terms, schema_len, codec, meta, dict, index, pyr, text, named);
            let v = assembled_view(version, flags, levels, perms, quads, terms, schema_len, codec, meta, dict, index, pyr, text, named);
            let insert = (HEADER_LEN + meta.len()) as u64;
            let nv = (v.0, v.1, attached_fields(v.2, insert, info.len() as u64), Seq::<ExtraSection>::empty());
            spec_attach_build_info(img, info) == Ok::<Seq<u8>, FileError>(
                view_bytes(nv) + meta + info + dict + index + pyr + text + named + MAGIC@,
            )
        }),
{
    let img = assembled_image(version, flags, levels, perms, quads, terms, schema_len, codec, meta, dict, index, pyr, text, named);
    let v = assembled_view(version, flags, levels, perms, quads, terms, schema_len, codec, meta, dict, index, pyr, text, named);
    assert(assembly_fits(meta, dict, index, pyr, text, named));
    lemma_assembled_image_verifies(version, flags, levels, perms, quads, terms, schema_len, codec, meta, dict, index, pyr, text, named);
    lemma_view_roundtrip(v);
    let f = v.2;
    let k = info.len() as u64;
    let insert = (HEADER_LEN + meta.len()) as u64;
    assert(shift_fits(f, v.3, insert, 0, k, false));
    let nv = (v.0, v.1, attached_fields(f, insert, k), shift_extras(v.3, insert, 0, k));
    assert(shift_extras(v.3, insert, 0, k) =~= Seq::<ExtraSection>::empty());
    assert(spec_plan_build_info(img, img.len() as u64, k) == Ok::<(HeaderView, u64, u64, u64), FileError>((nv, insert, insert, (img.len() + k) as u64)));
    assert(img.subrange(HEADER_LEN as int, insert as int) =~= meta);
    assert(img.subrange(insert as int, img.len() as int) =~= dict + index + pyr + text + named + MAGIC@);
    assert(view_bytes(nv) + img.subrange(HEADER_LEN as int, insert as int) + info + img.subrange(insert as int, img.len() as int) =~= view_bytes(nv) + meta + info + dict + index + pyr + text + named + MAGIC@);
}

/// The build-information law: attaching build information to a written image
/// keeps its content hash (the image still verifies, under the same hash),
/// and the section reads back verbatim.
#[verifier::rlimit(80)]
#[verifier::spinoff_prover]
pub proof fn lemma_attach_build_info_keeps_hash(
    version: u8,
    flags: u32,
    levels: u16,
    perms: u8,
    quads: u64,
    terms: u64,
    schema_len: u32,
    codec: u8,
    meta: Seq<u8>,
    dict: Seq<u8>,
    index: Seq<u8>,
    pyr: Seq<u8>,
    text: Seq<u8>,
    named: Seq<u8>,
    info: Seq<u8>,
)
    requires
        assembly_fits(meta, dict, index, pyr, text, named + info),
        info.len() > 0,
    ensures
        ({
            let img = assembled_image(version, flags, levels, perms, quads, terms, schema_len, codec, meta, dict, index, pyr, text, named);
            let v = assembled_view(version, flags, levels, perms, quads, terms, schema_len, codec, meta, dict, index, pyr, text, named);
            spec_attach_build_info(img, info) matches Ok(out) && {
                &&& spec_read_build_info(out) == Ok::<Option<Seq<u8>>, FileError>(Some(info))
                &&& spec_verify(out) == Ok::<bool, FileError>(true)
                &&& spec_parse_header(out) matches Some(w) && w.1 == v.1
            }
        }),
{
    lemma_attach_shape(version, flags, levels, perms, quads, terms, schema_len, codec, meta, dict, index, pyr, text, named, info);
    let v = assembled_view(version, flags, levels, perms, quads, terms, schema_len, codec, meta, dict, index, pyr, text, named);
    let insert = (HEADER_LEN + meta.len()) as u64;
    let g = attached_fields(v.2, insert, info.len() as u64);
    let nv = (v.0, v.1, g, Seq::<ExtraSection>::empty());
    let rest = meta + info + dict + index + pyr + text + named + MAGIC@;
    let out = view_bytes(nv) + rest;
    assert(out =~= view_bytes(nv) + meta + info + dict + index + pyr + text + named + MAGIC@);
    assert(view_wf(nv));
    lemma_view_roundtrip(nv);
    lemma_parse_header_prefix(view_bytes(nv), rest);
    assert(slice_of(out, g[F_BUILD_OFF as int], g[F_BUILD_LEN as int]) =~= info);
    assert(slice_of(out, g[F_DICT_OFF as int], g[F_DICT_LEN as int]) =~= dict);
    assert(slice_of(out, g[F_ROOT_OFF as int], g[F_ROOT_LEN as int]) =~= index);
    if pyr.len() > 0 {
        assert(slice_of(out, g[F_PYR_OFF as int], g[F_PYR_LEN as int]) =~= pyr);
    }
    if meta.len() > 0 {
        assert(slice_of(out, g[F_META_OFF as int], g[F_META_LEN as int]) =~= meta);
    }
    if text.len() > 0 {
        assert(slice_of(out, g[F_TEXT_OFF as int], g[F_TEXT_LEN as int]) =~= text);
    }
    if named.len() > 0 {
        assert(slice_of(out, g[F_NAMED_OFF as int], g[F_NAMED_LEN as int]) =~= named);
    }
    assert(hashed_in_image(g, out));
    assert(hashed_parts(g, out) =~= assembled_parts(meta, dict, index, pyr, text, named)) by {
        broadcast use vstd::seq_lib::group_seq_properties;
    }
}

} // verus!
