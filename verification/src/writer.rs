//! Writing whole file images: the named-graphs section in both index
//! generations, and the dataset writers that pick the generation and lay
//! out the image.
use vstd::prelude::*;

use crate::codec::{writer_codec, FileError, CODEC_NONE};
use crate::container::container_bytes;
use crate::dict::{encode_dict_container, dict_payloads, Dictionary};
use crate::header::{
    FLAG_HAS_QUADS, FLAG_HAS_QUOTED_TRIPLES, FLAG_TILE_SYNOPSIS, LEGACY_FORMAT_VERSION, NEXT_FORMAT_VERSION,
};
use crate::image::{assemble_image, assembled_image, assembly_fits};
use crate::index::{GraphIndex, PERMS_ALL};
use crate::container::spec_decode_container;
use crate::dict::{take_at, take_varint};
use crate::family::family_valid;
use crate::index::perm_count;
use crate::indexfile::{
    encode_family_index_container, encode_index_container, family_index_bytes, family_index_result,
    index_family_encodable, legacy_index_result, legacy_payloads_ok, perm_payloads,
};
use crate::varint::{uvarint_bytes, write_uvarint};

verus! {

/// One named graph framed in the named-graphs section: its IRI and its
/// index container, each behind its length.
pub open spec fn named_entry(iri: Seq<u8>, container: Seq<u8>) -> Seq<u8> {
    uvarint_bytes(iri.len()) + iri + uvarint_bytes(container.len()) + container
}

/// The framed entries of the first `k` graphs, their containers being `cs`.
pub open spec fn named_entries(named: Seq<(Vec<u8>, GraphIndex)>, cs: Seq<Seq<u8>>, k: int) -> Seq<u8>
    decreases k,
{
    if k <= 0 {
        seq![]
    } else {
        named_entries(named, cs, k - 1) + named_entry(named[k - 1].0@, cs[k - 1])
    }
}

/// A named-graphs section holding `named` with index containers `cs`.
pub open spec fn named_section(named: Seq<(Vec<u8>, GraphIndex)>, cs: Seq<Seq<u8>>) -> Seq<u8> {
    uvarint_bytes(named.len()) + named_entries(named, cs, named.len() as int)
}

/// The first-generation container of an index.
pub open spec fn legacy_container(index: GraphIndex) -> Seq<u8> {
    container_bytes(perm_payloads(index.perms, index.sections@, 6))
}

/// The first-generation named-graphs section.
pub open spec fn legacy_named(named: Seq<(Vec<u8>, GraphIndex)>) -> Seq<u8> {
    named_section(named, Seq::new(named.len(), |i: int| legacy_container(named[i].1)))
}

/// `b` is a second-generation named-graphs section of `named`.
pub open spec fn family_named(named: Seq<(Vec<u8>, GraphIndex)>, b: Seq<u8>) -> bool {
    exists|cs: Seq<Seq<u8>>|
        cs.len() == named.len() && b == named_section(named, cs) && forall|i: int|
            0 <= i < named.len() ==> #[trigger] family_index_bytes(named[i].1, cs[i])
}

/// Every named graph can be written in the second generation.
pub open spec fn named_family_encodable(named: Seq<(Vec<u8>, GraphIndex)>, codec: u8) -> bool {
    forall|i: int|
        0 <= i < named.len() ==> (#[trigger] named[i]).1.perms == PERMS_ALL && index_family_encodable(
            named[i].1.sections@,
            codec,
        )
}

/// Encode the named-graphs section of the first generation: each graph as
/// its IRI and its index container.
pub fn encode_named_graphs(named: &Vec<(Vec<u8>, GraphIndex)>, codec: u8) -> (r: Vec<u8>)
    ensures
        r@ == legacy_named(named@),
{
    let ghost cs = Seq::new(named@.len(), |i: int| legacy_container(named@[i].1));
    let mut out: Vec<u8> = Vec::new();
    write_uvarint(&mut out, named.len() as u64);
    let ghost head = out@;
    let n = named.len();
    let mut i: usize = 0;
    while i < n
        invariant
            n == named@.len(),
            cs == Seq::new(named@.len(), |i: int| legacy_container(named@[i].1)),
            head == uvarint_bytes(named@.len()),
            i <= n,
            out@ == head + named_entries(named@, cs, i as int),
        decreases n - i,
    {
        let (iri, index) = &named[i];
        let container = encode_index_container(index, codec);
        let ghost before = out@;
        write_uvarint(&mut out, iri.len() as u64);
        out.extend_from_slice(iri.as_slice());
        write_uvarint(&mut out, container.len() as u64);
        out.extend_from_slice(container.as_slice());
        proof {
            assert(cs[i as int] == container@);
            assert(out@ =~= before + named_entry(iri@, container@));
        }
        i = i + 1;
    }
    out
}

/// Encode the named-graphs section of the second generation; every graph
/// must carry all permutations and be encodable as families.
pub fn encode_named_graph_families(named: &Vec<(Vec<u8>, GraphIndex)>, codec: u8) -> (r: Result<Vec<u8>, FileError>)
    ensures
        named_family_encodable(named@, codec) <==> r is Ok,
        r matches Ok(b) ==> family_named(named@, b@),
{
    let mut out: Vec<u8> = Vec::new();
    write_uvarint(&mut out, named.len() as u64);
    let ghost head = out@;
    let ghost mut cs: Seq<Seq<u8>> = seq![];
    let n = named.len();
    let mut i: usize = 0;
    while i < n
        invariant
            n == named@.len(),
            head == uvarint_bytes(named@.len()),
            i <= n,
            cs.len() == i,
            out@ == head + named_entries(named@, cs, i as int),
            forall|x: int| 0 <= x < i ==> #[trigger] family_index_bytes(named@[x].1, cs[x]),
            forall|x: int|
                0 <= x < i ==> (#[trigger] named@[x]).1.perms == PERMS_ALL && index_family_encodable(
                    named@[x].1.sections@,
                    codec,
                ),
        decreases n - i,
    {
        let (iri, index) = &named[i];
        if index.perms != PERMS_ALL {
            return Err(FileError::Container("paired-family named graph requires all permutations"));
        }
        let container = match encode_family_index_container(index, codec) {
            Ok(c) => c,
            Err(e) => return Err(e),
        };
        proof {
            crate::indexfile::lemma_encoded_family_index(*index, container@, codec);
        }
        let ghost before = out@;
        write_uvarint(&mut out, iri.len() as u64);
        out.extend_from_slice(iri.as_slice());
        write_uvarint(&mut out, container.len() as u64);
        out.extend_from_slice(container.as_slice());
        proof {
            let ncs = cs.push(container@);
            assert(named_entries(named@, ncs, i as int) == named_entries(named@, cs, i as int)) by {
                lemma_named_entries_prefix(named@, cs, ncs, i as int);
            }
            assert(out@ =~= before + named_entry(iri@, container@));
            assert forall|x: int| 0 <= x < i + 1 implies #[trigger] family_index_bytes(named@[x].1, ncs[x]) by {
                if x < i {
                    assert(ncs[x] == cs[x]);
                }
            }
            cs = ncs;
        }
        i = i + 1;
    }
    proof {
        assert(family_named(named@, out@));
    }
    Ok(out)
}

/// The framed entries of the first `k` graphs depend on their containers only.
pub proof fn lemma_named_entries_prefix(named: Seq<(Vec<u8>, GraphIndex)>, a: Seq<Seq<u8>>, b: Seq<Seq<u8>>, k: int)
    requires
        k <= a.len(),
        k <= b.len(),
        forall|i: int| 0 <= i < k ==> a[i] == b[i],
    ensures
        named_entries(named, a, k) == named_entries(named, b, k),
    decreases k,
{
    if k > 0 {
        lemma_named_entries_prefix(named, a, b, k - 1);
    }
}

/// The header flags of a dataset.
pub open spec fn dataset_flags(has_quads: bool, has_quoted_triples: bool) -> u32 {
    (FLAG_TILE_SYNOPSIS + (if has_quads { FLAG_HAS_QUADS } else { 0 }) + (if has_quoted_triples {
        FLAG_HAS_QUOTED_TRIPLES
    } else {
        0
    })) as u32
}

/// The triples of the named graphs from `k` on.
pub open spec fn named_quads(named: Seq<(Vec<u8>, GraphIndex)>, k: int) -> int
    decreases named.len() - k,
{
    if k < 0 || k >= named.len() {
        0
    } else {
        named[k].1.triple_count + named_quads(named, k + 1)
    }
}

/// Every triple of the dataset: the default graph's and the named graphs'.
pub open spec fn dataset_quads(default_index: GraphIndex, named: Seq<(Vec<u8>, GraphIndex)>) -> int {
    default_index.triple_count + named_quads(named, 0)
}

/// Whether the default graph and every named graph can be written in the
/// second generation.
pub open spec fn dataset_families(default_index: GraphIndex, named: Seq<(Vec<u8>, GraphIndex)>, codec: u8) -> bool {
    &&& default_index.perms == PERMS_ALL
    &&& index_family_encodable(default_index.sections@, codec)
    &&& named_family_encodable(named, codec)
}

/// The image a dataset writer lays out from its encoded index and
/// named-graphs sections.
pub open spec fn dataset_image(
    version: u8,
    index_bytes: Seq<u8>,
    named_bytes: Seq<u8>,
    named: Seq<(Vec<u8>, GraphIndex)>,
    dict_container: Seq<u8>,
    term_count: u64,
    default_index: GraphIndex,
    has_quads: bool,
    has_quoted_triples: bool,
    pyramid_meta: Seq<u8>,
    pyramid_levels: u16,
    metadata: Seq<u8>,
    text_index: Seq<u8>,
    codec: u8,
) -> Seq<u8> {
    assembled_image(
        version,
        dataset_flags(has_quads, has_quoted_triples),
        pyramid_levels,
        default_index.perms,
        dataset_quads(default_index, named) as u64,
        term_count,
        0,
        codec,
        metadata,
        dict_container,
        index_bytes,
        pyramid_meta,
        text_index,
        if named.len() == 0 { seq![] } else { named_bytes },
    )
}

/// `r` is the second-generation image of the family containers `ix` and
/// `nm`, or, when that image is too large to address, empty.
pub open spec fn paired_written(
    r: Seq<u8>,
    ix: Seq<u8>,
    nm: Seq<u8>,
    dict_container: Seq<u8>,
    term_count: u64,
    default_index: GraphIndex,
    named: Seq<(Vec<u8>, GraphIndex)>,
    has_quads: bool,
    has_quoted_triples: bool,
    pyramid_meta: Seq<u8>,
    pyramid_levels: u16,
    metadata: Seq<u8>,
    text_index: Seq<u8>,
    codec: u8,
) -> bool {
    &&& family_index_bytes(default_index, ix)
    &&& family_named(named, nm)
    &&& (r == dataset_image(
        NEXT_FORMAT_VERSION,
        ix,
        nm,
        named,
        dict_container,
        term_count,
        default_index,
        has_quads,
        has_quoted_triples,
        pyramid_meta,
        pyramid_levels,
        metadata,
        text_index,
        codec,
    ) || (r.len() == 0 && !assembly_fits(
        metadata,
        dict_container,
        ix,
        pyramid_meta,
        text_index,
        if named.len() == 0 { seq![] } else { nm },
    )))
}

/// `r` is what the writer gives for these parts: the second-generation
/// image when every graph is written as families, the first-generation one
/// otherwise; an image too large to address is left empty either way.
pub open spec fn dataset_written(
    r: Seq<u8>,
    dict_container: Seq<u8>,
    term_count: u64,
    default_index: GraphIndex,
    named: Seq<(Vec<u8>, GraphIndex)>,
    has_quads: bool,
    has_quoted_triples: bool,
    pyramid_meta: Seq<u8>,
    pyramid_levels: u16,
    metadata: Seq<u8>,
    text_index: Seq<u8>,
    codec: u8,
) -> bool {
    &&& dataset_families(default_index, named, codec) ==> exists|ix: Seq<u8>, nm: Seq<u8>|
        #[trigger] paired_written(
            r,
            ix,
            nm,
            dict_container,
            term_count,
            default_index,
            named,
            has_quads,
            has_quoted_triples,
            pyramid_meta,
            pyramid_levels,
            metadata,
            text_index,
            codec,
        )
    &&& !dataset_families(default_index, named, codec) ==> (r == dataset_image(
        LEGACY_FORMAT_VERSION,
        legacy_container(default_index),
        legacy_named(named),
        named,
        dict_container,
        term_count,
        default_index,
        has_quads,
        has_quoted_triples,
        pyramid_meta,
        pyramid_levels,
        metadata,
        text_index,
        codec,
    ) || (r.len() == 0 && !assembly_fits(
        metadata,
        dict_container,
        legacy_container(default_index),
        pyramid_meta,
        text_index,
        if named.len() == 0 { seq![] } else { legacy_named(named) },
    )))
}

/// Sum the triple counts of the named graphs.
fn named_quad_total(named: &Vec<(Vec<u8>, GraphIndex)>, base: u64) -> (r: u64)
    requires
        base + named_quads(named@, 0) <= u64::MAX,
    ensures
        r == base + named_quads(named@, 0),
{
    let n = named.len();
    let mut total = base;
    let mut i: usize = 0;
    while i < n
        invariant
            n == named@.len(),
            i <= n,
            total + named_quads(named@, i as int) == base + named_quads(named@, 0),
            base + named_quads(named@, 0) <= u64::MAX,
        decreases n - i,
    {
        proof {
            lemma_named_quads_nonneg(named@, i + 1);
        }
        total = total + named[i].1.triple_count;
        i = i + 1;
    }
    total
}

/// Triple counts are never negative.
pub proof fn lemma_named_quads_nonneg(named: Seq<(Vec<u8>, GraphIndex)>, k: int)
    ensures
        named_quads(named, k) >= 0,
    decreases named.len() - k,
{
    if 0 <= k < named.len() {
        lemma_named_quads_nonneg(named, k + 1);
    }
}

/// Assemble a file image from an already-serialized dictionary container,
/// the default-graph index, the named graphs and the optional sections.
/// Indexes whose every graph carries all six permutations and encodes as
/// families are written in the second generation, all others in the first.
/// An image too large to address is not written.
pub fn write_dataset_from_parts(
    dict_container: &[u8],
    term_count: u64,
    default_index: &GraphIndex,
    named: &Vec<(Vec<u8>, GraphIndex)>,
    has_quads: bool,
    has_quoted_triples: bool,
    pyramid_meta: &[u8],
    pyramid_levels: u16,
    metadata: &[u8],
    text_index: &[u8],
    codec: u8,
) -> (r: Vec<u8>)
    requires
        dataset_quads(*default_index, named@) <= u64::MAX,
    ensures
        dataset_written(
            r@,
            dict_container@,
            term_count,
            *default_index,
            named@,
            has_quads,
            has_quoted_triples,
            pyramid_meta@,
            pyramid_levels,
            metadata@,
            text_index@,
            codec,
        ),
{
    let paired: Option<(Vec<u8>, Vec<u8>)> = if default_index.perms == PERMS_ALL {
        match encode_family_index_container(default_index, codec) {
            Ok(ix) => match encode_named_graph_families(named, codec) {
                Ok(nm) => Some((ix, nm)),
                Err(_) => None,
            },
            Err(_) => None,
        }
    } else {
        None
    };
    let ghost fam = dataset_families(*default_index, named@, codec);
    let (version, index_container, named_section) = match paired {
        Some((ix, nm)) => (NEXT_FORMAT_VERSION, ix, nm),
        None => (LEGACY_FORMAT_VERSION, encode_index_container(default_index, codec), encode_named_graphs(named, codec)),
    };
    proof {
        if version == NEXT_FORMAT_VERSION {
            assert(fam);
            crate::indexfile::lemma_encoded_family_index(*default_index, index_container@, codec);
            assert(family_named(named@, named_section@));
        } else {
            assert(!fam);
            assert(index_container@ == legacy_container(*default_index));
            assert(named_section@ == legacy_named(named@));
        }
    }
    let empty: Vec<u8> = Vec::new();
    let named_part: &[u8] = if named.len() == 0 {
        empty.as_slice()
    } else {
        named_section.as_slice()
    };
    let quads = named_quad_total(named, default_index.triple_count);
    let flags: u32 = 4 + (if has_quads { 1u32 } else { 0u32 }) + (if has_quoted_triples { 2u32 } else { 0u32 });
    let total_ok = fits(metadata, dict_container, index_container.as_slice(), pyramid_meta, text_index, named_part);
    if !total_ok {
        let none: Vec<u8> = Vec::new();
        proof {
            assert(named_part@ == if named@.len() == 0 { seq![] } else { named_section@ });
            if version == NEXT_FORMAT_VERSION {
                assert(family_index_bytes(*default_index, index_container@) && family_named(named@, named_section@));
                assert(!assembly_fits(
                    metadata@,
                    dict_container@,
                    index_container@,
                    pyramid_meta@,
                    text_index@,
                    if named@.len() == 0 { seq![] } else { named_section@ },
                ));
                assert(paired_written(
                    none@,
                    index_container@,
                    named_section@,
                    dict_container@,
                    term_count,
                    *default_index,
                    named@,
                    has_quads,
                    has_quoted_triples,
                    pyramid_meta@,
                    pyramid_levels,
                    metadata@,
                    text_index@,
                    codec,
                ));
            }
        }
        return none;
    }
    let img = assemble_image(
        version,
        flags,
        pyramid_levels,
        default_index.perms,
        quads,
        term_count,
        0,
        codec,
        metadata,
        dict_container,
        index_container.as_slice(),
        pyramid_meta,
        text_index,
        named_part,
    );
    proof {
        assert(flags == dataset_flags(has_quads, has_quoted_triples));
        assert(named_part@ == if named@.len() == 0 { seq![] } else { named_section@ });
        let d = dataset_image(
            version,
            index_container@,
            named_section@,
            named@,
            dict_container@,
            term_count,
            *default_index,
            has_quads,
            has_quoted_triples,
            pyramid_meta@,
            pyramid_levels,
            metadata@,
            text_index@,
            codec,
        );
        assert(img@ == d);
        if version == NEXT_FORMAT_VERSION {
            assert(family_index_bytes(*default_index, index_container@) && family_named(named@, named_section@));
            assert(paired_written(
                img@,
                index_container@,
                named_section@,
                dict_container@,
                term_count,
                *default_index,
                named@,
                has_quads,
                has_quoted_triples,
                pyramid_meta@,
                pyramid_levels,
                metadata@,
                text_index@,
                codec,
            ));
        }
    }
    img
}

/// Whether sections of these lengths make an image the header can describe.
fn fits(meta: &[u8], dict: &[u8], index: &[u8], pyr: &[u8], text: &[u8], named: &[u8]) -> (r: bool)
    ensures
        r == assembly_fits(meta@, dict@, index@, pyr@, text@, named@),
{
    let mut total: usize = crate::header::HEADER_LEN;
    let parts: [usize; 6] = [meta.len(), dict.len(), index.len(), pyr.len(), text.len(), named.len()];
    let ghost sum = meta@.len() + dict@.len() + index@.len() + pyr@.len() + text@.len() + named@.len();
    if meta.len() > usize::MAX - total {
        return false;
    }
    total = total + meta.len();
    if dict.len() > usize::MAX - total {
        return false;
    }
    total = total + dict.len();
    if index.len() > usize::MAX - total {
        return false;
    }
    total = total + index.len();
    if pyr.len() > usize::MAX - total {
        return false;
    }
    total = total + pyr.len();
    if text.len() > usize::MAX - total {
        return false;
    }
    total = total + text.len();
    if named.len() > usize::MAX - total {
        return false;
    }
    total = total + named.len();
    total <= usize::MAX - 4
}

/// Serialize a dataset with an opaque metadata payload, which sits right
/// after the header and is covered by the content hash. An empty payload
/// omits the section.
pub fn write_dataset_with_metadata(
    dict: &Dictionary,
    default_index: &GraphIndex,
    named: &Vec<(Vec<u8>, GraphIndex)>,
    has_quads: bool,
    pyramid_meta: &[u8],
    pyramid_levels: u16,
    metadata: &[u8],
    text_index: &[u8],
) -> (r: Vec<u8>)
    requires
        dataset_quads(*default_index, named@) <= u64::MAX,
    ensures
        dataset_written(
            r@,
            container_bytes(dict_payloads(*dict)),
            if dict.spec_term_count() > u64::MAX { u64::MAX } else { dict.spec_term_count() as u64 },
            *default_index,
            named@,
            has_quads,
            dict.spec_has_quoted_triples(),
            pyramid_meta@,
            pyramid_levels,
            metadata@,
            text_index@,
            CODEC_NONE,
        ),
{
    let codec = writer_codec();
    let dict_container = encode_dict_container(dict, codec);
    write_dataset_from_parts(
        dict_container.as_slice(),
        dict.term_count(),
        default_index,
        named,
        has_quads,
        dict.has_quoted_triples(),
        pyramid_meta,
        pyramid_levels,
        metadata,
        text_index,
        codec,
    )
}

/// Serialize an RDF dataset: the default graph plus named graphs, sharing
/// one dictionary, with no metadata and no text index.
pub fn write_dataset(
    dict: &Dictionary,
    default_index: &GraphIndex,
    named: &Vec<(Vec<u8>, GraphIndex)>,
    has_quads: bool,
    pyramid_meta: &[u8],
    pyramid_levels: u16,
) -> (r: Vec<u8>)
    requires
        dataset_quads(*default_index, named@) <= u64::MAX,
    ensures
        dataset_written(
            r@,
            container_bytes(dict_payloads(*dict)),
            if dict.spec_term_count() > u64::MAX { u64::MAX } else { dict.spec_term_count() as u64 },
            *default_index,
            named@,
            has_quads,
            dict.spec_has_quoted_triples(),
            pyramid_meta@,
            pyramid_levels,
            seq![],
            seq![],
            CODEC_NONE,
        ),
{
    let empty: Vec<u8> = Vec::new();
    write_dataset_with_metadata(
        dict,
        default_index,
        named,
        has_quads,
        pyramid_meta,
        pyramid_levels,
        empty.as_slice(),
        empty.as_slice(),
    )
}

/// Serialize a file image of one graph from a dictionary, its index and an
/// (optionally empty) encoded pyramid section spanning `pyramid_levels`
/// rounds.
pub fn write_file(
    dict: &Dictionary,
    index: &GraphIndex,
    has_quads: bool,
    pyramid_meta: &[u8],
    pyramid_levels: u16,
) -> (r: Vec<u8>)
    ensures
        dataset_written(
            r@,
            container_bytes(dict_payloads(*dict)),
            if dict.spec_term_count() > u64::MAX { u64::MAX } else { dict.spec_term_count() as u64 },
            *index,
            seq![],
            has_quads,
            dict.spec_has_quoted_triples(),
            pyramid_meta@,
            pyramid_levels,
            seq![],
            seq![],
            CODEC_NONE,
        ),
{
    let named: Vec<(Vec<u8>, GraphIndex)> = Vec::new();
    proof {
        assert(named_quads(named@, 0) == 0);
    }
    write_dataset(dict, index, &named, has_quads, pyramid_meta, pyramid_levels)
}

/// What decoding an index container of format `version` may give, as
/// [`decode_index_for_version`] states it.
pub open spec fn index_for_version(bytes: Seq<u8>, codec: u8, perms: u8, version: u8, r: Result<GraphIndex, FileError>) -> bool {
    &&& version == LEGACY_FORMAT_VERSION ==> legacy_index_result(bytes, codec, perms, r)
    &&& version == NEXT_FORMAT_VERSION && perms == PERMS_ALL ==> family_index_result(bytes, codec, r)
    &&& version == NEXT_FORMAT_VERSION && perms != PERMS_ALL ==> r == Err::<GraphIndex, FileError>(
        FileError::Container("paired-family generation requires all six logical permutations"),
    )
    &&& version != LEGACY_FORMAT_VERSION && version != NEXT_FORMAT_VERSION ==> r == Err::<GraphIndex, FileError>(
        FileError::Container("unsupported index generation"),
    )
}

/// An index container of format `version` that decodes: every carried
/// section valid in the first generation, every family valid under a known
/// codec in the second.
pub open spec fn index_decodes(bytes: Seq<u8>, codec: u8, perms: u8, version: u8) -> bool {
    if version == LEGACY_FORMAT_VERSION {
        spec_decode_container(bytes, CODEC_NONE, perm_count(perms)) matches Ok(ps) && legacy_payloads_ok(
            ps,
            perms,
            codec,
        )
    } else if version == NEXT_FORMAT_VERSION && perms == PERMS_ALL {
        spec_decode_container(bytes, CODEC_NONE, 3) matches Ok(ps) && (codec == CODEC_NONE || codec
            == crate::codec::CODEC_ZSTD) && forall|f: int| 0 <= f < 3 ==> #[trigger] family_valid(ps[f], codec)
    } else {
        false
    }
}

/// An index container that decodes is decoded.
pub proof fn lemma_index_decodes_ok(bytes: Seq<u8>, codec: u8, perms: u8, version: u8, r: Result<GraphIndex, FileError>)
    requires
        index_decodes(bytes, codec, perms, version),
        index_for_version(bytes, codec, perms, version, r),
    ensures
        r is Ok,
{
}

/// The framed entries `i..n` of a named-graphs section from `pos`: each
/// graph's IRI bytes and index container bytes, and the end; or the first
/// framing failure.
pub open spec fn named_frames(b: Seq<u8>, pos: int, i: nat, n: nat) -> Result<(Seq<(Seq<u8>, Seq<u8>)>, int), FileError>
    decreases n - i,
{
    if i >= n {
        Ok((seq![], pos))
    } else {
        match take_varint(b, pos) {
            None => Err(FileError::Container("truncated iri len")),
            Some((ilen, p1)) => if ilen > usize::MAX {
                Err(FileError::Container("named-graph field too large"))
            } else if p1 + ilen > b.len() {
                Err(FileError::Container("named-graph field overruns buffer"))
            } else {
                match take_varint(b, p1 + ilen) {
                    None => Err(FileError::Container("truncated container len")),
                    Some((clen, p2)) => if clen > usize::MAX {
                        Err(FileError::Container("named-graph field too large"))
                    } else if p2 + clen > b.len() {
                        Err(FileError::Container("named-graph field overruns buffer"))
                    } else {
                        match named_frames(b, p2 + clen, i + 1, n) {
                            Err(e) => Err(e),
                            Ok((rest, end)) => Ok(
                                (seq![(b.subrange(p1, p1 + ilen), b.subrange(p2, p2 + clen))] + rest, end),
                            ),
                        }
                    },
                }
            },
        }
    }
}

/// The framed graphs of a whole named-graphs section, which must end at the
/// section's end.
pub open spec fn spec_named_frames(b: Seq<u8>) -> Option<Seq<(Seq<u8>, Seq<u8>)>> {
    match take_varint(b, 0) {
        None => None,
        Some((n, p)) => match named_frames(b, p, 0, n as nat) {
            Ok((fs, end)) => if end == b.len() {
                Some(fs)
            } else {
                None
            },
            Err(_) => None,
        },
    }
}

/// Decode the named-graphs section: each graph's IRI and index, decoded for
/// the file's format version.
#[verifier::rlimit(50)]
pub fn decode_named_graphs(bytes: &[u8], codec: u8, perms: u8, version: u8) -> (r: Result<
    Vec<(Vec<u8>, GraphIndex)>,
    FileError,
>)
    ensures
        r matches Ok(v) ==> spec_named_frames(bytes@) matches Some(fs) && v@.len() == fs.len() && forall|i: int|
            0 <= i < fs.len() ==> (#[trigger] v@[i]).0@ == fs[i].0 && index_for_version(
                fs[i].1,
                codec,
                perms,
                version,
                Ok(v@[i].1),
            ),
        spec_named_frames(bytes@) is None ==> r is Err,
        (spec_named_frames(bytes@) matches Some(fs) && forall|i: int|
            0 <= i < fs.len() ==> #[trigger] index_decodes(fs[i].1, codec, perms, version)) ==> r is Ok,
{
    let blen = bytes.len();
    let mut pos: usize = 0;
    let n = match take_at(bytes, &mut pos, "truncated graph count") {
        Ok(n) => n,
        Err(e) => return Err(e),
    };
    let ghost p0 = pos;
    let ghost whole = named_frames(bytes@, p0 as int, 0, n as nat);
    let mut out: Vec<(Vec<u8>, GraphIndex)> = Vec::new();
    let ghost mut done: Seq<(Seq<u8>, Seq<u8>)> = seq![];
    let mut i: u64 = 0;
    proof {
        assert(done + Seq::<(Seq<u8>, Seq<u8>)>::empty() =~= Seq::<(Seq<u8>, Seq<u8>)>::empty());
        if let Ok((fs, e)) = whole {
            assert(done + fs =~= fs);
        }
    }
    while i < n
        invariant
            blen == bytes@.len(),
            i <= n,
            pos <= blen,
            take_varint(bytes@, 0) == Some((n, p0 as int)),
            whole == named_frames(bytes@, p0 as int, 0, n as nat),
            whole == match named_frames(bytes@, pos as int, i as nat, n as nat) {
                Ok((rest, e)) => Ok((done + rest, e)),
                Err(e) => Err::<(Seq<(Seq<u8>, Seq<u8>)>, int), FileError>(e),
            },
            out@.len() == done.len(),
            forall|x: int|
                0 <= x < done.len() ==> (#[trigger] out@[x]).0@ == done[x].0 && index_for_version(
                    done[x].1,
                    codec,
                    perms,
                    version,
                    Ok(out@[x].1),
                ),
        decreases n - i,
    {
        let ghost pi = pos;
        let ilen = take_at(bytes, &mut pos, "truncated iri len")?;
        if ilen > usize::MAX as u64 {
            return Err(FileError::Container("named-graph field too large"));
        }
        if ilen as usize > blen - pos {
            return Err(FileError::Container("named-graph field overruns buffer"));
        }
        let iend = pos + ilen as usize;
        let iri = vstd::slice::slice_to_vec(vstd::slice::slice_subrange(bytes, pos, iend));
        pos = iend;
        let clen = take_at(bytes, &mut pos, "truncated container len")?;
        if clen > usize::MAX as u64 {
            return Err(FileError::Container("named-graph field too large"));
        }
        if clen as usize > blen - pos {
            return Err(FileError::Container("named-graph field overruns buffer"));
        }
        let cend = pos + clen as usize;
        let container = vstd::slice::slice_subrange(bytes, pos, cend);
        let ghost entry = (iri@, container@);
        let index = match crate::indexfile::decode_index_for_version(container, codec, perms, version) {
            Ok(ix) => ix,
            Err(e) => {
                proof {
                    if let Some(fs0) = spec_named_frames(bytes@) {
                        let (rest, e2) = named_frames(bytes@, pi as int, i as nat, n as nat)->Ok_0;
                        assert(whole == Ok::<(Seq<(Seq<u8>, Seq<u8>)>, int), FileError>((done + rest, e2)));
                        assert(fs0 == done + rest);
                        assert(rest[0] == entry);
                        let fs = fs0;
                        assert(fs[done.len() as int] == entry);
                        if index_decodes(container@, codec, perms, version) {
                            lemma_index_decodes_ok(container@, codec, perms, version, Err(e));
                        }
                        assert(!index_decodes(fs[done.len() as int].1, codec, perms, version));
                    }
                }
                return Err(e);
            },
        };
        proof {
            assert(index_for_version(container@, codec, perms, version, Ok(index)));
        }
        let ghost before = out@;
        out.push((iri, index));
        proof {
            let nd = done.push(entry);
            if let Ok((rest, e)) = named_frames(bytes@, cend as int, (i + 1) as nat, n as nat) {
                assert(done + (seq![entry] + rest) =~= nd + rest);
            }
            assert forall|x: int|
                0 <= x < nd.len() implies (#[trigger] out@[x]).0@ == nd[x].0 && index_for_version(
                    nd[x].1,
                    codec,
                    perms,
                    version,
                    Ok(out@[x].1),
                ) by {
                if x < done.len() {
                    assert(out@[x] == before[x]);
                }
            }
            done = nd;
        }
        pos = cend;
        i = i + 1;
    }
    if pos != blen {
        return Err(FileError::Container("trailing named-graph bytes"));
    }
    proof {
        assert(done + Seq::<(Seq<u8>, Seq<u8>)>::empty() =~= done);
    }
    Ok(out)
}

} // verus!
