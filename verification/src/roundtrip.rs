//! The file law: what a written image gives back once it is opened.
use vstd::prelude::*;

use crate::codec::CODEC_NONE;
use crate::container::container_bytes;
use crate::dict::{dict_payloads, Dictionary};
use crate::dict_roundtrip::{lemma_dictionary_roundtrip, section_fits};
use crate::header::{lemma_view_roundtrip, view_wf, HEADER_LEN, LEGACY_FORMAT_VERSION, NEXT_FORMAT_VERSION};
use crate::image::{
    assembled_view, assembly_fits, lemma_layout_parts, slice_of, F_DICT_LEN, F_DICT_OFF, F_META_LEN, F_META_OFF, F_ROOT_LEN,
    F_ROOT_OFF,
};
use crate::index::{
    content_or_empty, has_perm, index_matches, index_of, lemma_match_pattern_exact, lemma_route, route, section_matches,
    GraphIndex, Pattern, Tile, PERMS_ALL,
};
use crate::tile::Triple;
use crate::indexfile::{family_index_bytes, lemma_index_family_roundtrip, slot_tiles, tile_view};
use crate::rete::{opened, Rete};
use crate::tiled_roundtrip::{lemma_index_legacy_roundtrip, tiled_fits};
use crate::writer::{
    dataset_families, dataset_flags, dataset_image, dataset_quads, dataset_written, family_named, legacy_container,
    legacy_named, paired_written,
};

verus! {

/// The term count a writer records for `dict`: its terms, capped at
/// `u64::MAX`.
pub open spec fn recorded_term_count(dict: Dictionary) -> u64 {
    if dict.spec_term_count() > u64::MAX {
        u64::MAX
    } else {
        dict.spec_term_count() as u64
    }
}

/// What the header of an opened image written by a dataset writer (with no
/// named graphs, metadata or text index) records: the format generation it
/// was written in, no compression, the index's permutations, and where the
/// dictionary and index containers lie.
#[verifier::rlimit(100)]
#[verifier::spinoff_prover]
proof fn lemma_opened_written(
    version: u8,
    ix: Seq<u8>,
    nm: Seq<u8>,
    dc: Seq<u8>,
    tc: u64,
    index: GraphIndex,
    has_quads: bool,
    hq: bool,
    pyramid_meta: Seq<u8>,
    pyramid_levels: u16,
    image: Vec<u8>,
    r: Rete,
)
    requires
        image@ == dataset_image(
            version,
            ix,
            nm,
            seq![],
            dc,
            tc,
            index,
            has_quads,
            hq,
            pyramid_meta,
            pyramid_levels,
            seq![],
            seq![],
            CODEC_NONE,
        ),
        opened(image@, r),
    ensures
        r.header.version == version,
        r.header.dict_codec == CODEC_NONE,
        r.header.block_codec == CODEC_NONE,
        r.header.perms == index.perms,
        slice_of(image@, r.header.dictionary_offset, r.header.dictionary_len) == dc,
        slice_of(image@, r.header.root_dir_offset, r.header.root_dir_len) == ix,
{
    let named: Seq<(Vec<u8>, GraphIndex)> = seq![];
    let img = image@;
    let flags = dataset_flags(has_quads, hq);
    let quads = dataset_quads(index, named) as u64;
    let e = Seq::<u8>::empty();
    let v = assembled_view(version, flags, pyramid_levels, index.perms, quads, tc, 0, CODEC_NONE, e, dc, ix, pyramid_meta, e, e);
    assert(view_wf(v));
    lemma_view_roundtrip(v);
    assert(img.len() == HEADER_LEN + dc.len() + ix.len() + pyramid_meta.len() + 4);
    assert(img.len() == image.len());
    assert(assembly_fits(e, dc, ix, pyramid_meta, e, e));
    lemma_layout_parts(version, v.1, flags, pyramid_levels, index.perms, quads, tc, 0, CODEC_NONE, e, dc, ix, pyramid_meta, e, e);
    let f = v.2;
    let h = r.header;
    assert(crate::header::scalar_fields(h) == f);
    assert(h.dictionary_offset == f[F_DICT_OFF as int]);
    assert(h.dictionary_len == f[F_DICT_LEN as int]);
    assert(h.root_dir_offset == f[F_ROOT_OFF as int]);
    assert(h.root_dir_len == f[F_ROOT_LEN as int]);
    assert(h.dict_codec as u64 == f[9]);
    assert(h.block_codec as u64 == f[10]);
    assert(h.perms as u64 == f[12]);
}

/// Index sizes a first-generation writer can address: every carried slot's
/// tiled section fits the address space.
pub open spec fn slots_fit(index: GraphIndex) -> bool {
    forall|k: int| 0 <= k < 6 && has_perm(index.perms, k) ==> #[trigger] tiled_fits(slot_tiles(index.sections@, k))
}

/// The six permutations are all carried by the full set.
pub proof fn lemma_all_perms(k: int)
    requires
        0 <= k < 6,
    ensures
        has_perm(PERMS_ALL, k),
{
}

/// The file law: an image written for a dictionary and an index holds,
/// once opened, that dictionary's four term lists and, in each slot the
/// index carries, the index's tiles with their leading ranges and bytes
/// (and nothing in the others), whichever format generation the writer
/// chose.
#[verifier::rlimit(50)]
#[verifier::spinoff_prover]
pub proof fn lemma_file_roundtrip(
    dict: Dictionary,
    index: GraphIndex,
    has_quads: bool,
    pyramid_meta: Seq<u8>,
    pyramid_levels: u16,
    image: Vec<u8>,
    r: Rete,
)
    requires
        section_fits(dict.shared_terms()),
        section_fits(dict.subject_terms()),
        section_fits(dict.object_terms()),
        section_fits(dict.predicate_terms()),
        slots_fit(index),
        dataset_written(
            image@,
            container_bytes(dict_payloads(dict)),
            recorded_term_count(dict),
            index,
            seq![],
            has_quads,
            dict.spec_has_quoted_triples(),
            pyramid_meta,
            pyramid_levels,
            seq![],
            seq![],
            CODEC_NONE,
        ),
        image@.len() > 0,
        opened(image@, r),
    ensures
        r.dict.shared_terms() == dict.shared_terms(),
        r.dict.subject_terms() == dict.subject_terms(),
        r.dict.object_terms() == dict.object_terms(),
        r.dict.predicate_terms() == dict.predicate_terms(),
        r.index.perms == index.perms,
        r.index.sections@.len() == 6,
        forall|k: int|
            0 <= k < 6 ==> (#[trigger] r.index.sections@[k])@.map_values(|t: Tile| tile_view(t)) == if has_perm(
                index.perms,
                k,
            ) {
                slot_tiles(index.sections@, k).map_values(|t: Tile| tile_view(t))
            } else {
                Seq::empty()
            },
{
    let dc = container_bytes(dict_payloads(dict));
    let named: Seq<(Vec<u8>, GraphIndex)> = seq![];
    let tc = recorded_term_count(dict);
    let hq = dict.spec_has_quoted_triples();
    let img = image@;
    lemma_dictionary_roundtrip(dict);
    if dataset_families(index, named, CODEC_NONE) {
        let (ix, nm) = choose|ix: Seq<u8>, nm: Seq<u8>|
            family_index_bytes(index, ix) && family_named(named, nm) && img == dataset_image(
                NEXT_FORMAT_VERSION,
                ix,
                nm,
                named,
                dc,
                tc,
                index,
                has_quads,
                hq,
                pyramid_meta,
                pyramid_levels,
                seq![],
                seq![],
                CODEC_NONE,
            );
        lemma_opened_written(NEXT_FORMAT_VERSION, ix, nm, dc, tc, index, has_quads, hq, pyramid_meta, pyramid_levels, image, r);
        lemma_index_family_roundtrip(index, ix, r.index);
        assert forall|k: int| 0 <= k < 6 implies has_perm(index.perms, k) by {
            lemma_all_perms(k);
        }
    } else {
        let ix = legacy_container(index);
        lemma_opened_written(LEGACY_FORMAT_VERSION, ix, legacy_named(named), dc, tc, index, has_quads, hq, pyramid_meta, pyramid_levels, image, r);
        lemma_index_legacy_roundtrip(index, r.index);
    }
}

/// Matching reads a tile only through its leading range and its bytes:
/// runs of tiles that agree on those match alike.
pub proof fn lemma_section_matches_views(k: int, a: Seq<Tile>, b: Seq<Tile>, pat: Pattern)
    requires
        a.map_values(|t: Tile| tile_view(t)) == b.map_values(|t: Tile| tile_view(t)),
    ensures
        section_matches(k, a, pat) == section_matches(k, b, pat),
    decreases a.len(),
{
    let va = a.map_values(|t: Tile| tile_view(t));
    let vb = b.map_values(|t: Tile| tile_view(t));
    assert(a.len() == va.len() && b.len() == vb.len());
    if a.len() > 0 {
        let n = a.len() as int;
        let da = a.drop_last().map_values(|t: Tile| tile_view(t));
        let db = b.drop_last().map_values(|t: Tile| tile_view(t));
        assert forall|i: int| 0 <= i < n - 1 implies #[trigger] da[i] == db[i] by {
            assert(va[i] == vb[i]);
        }
        assert(da =~= db);
        lemma_section_matches_views(k, a.drop_last(), b.drop_last(), pat);
        assert(va[n - 1] == vb[n - 1]);
        assert(a.last().bytes@ == b.last().bytes@);
        assert(content_or_empty(a.last()) == content_or_empty(b.last()));
    }
}

/// Two indexes carrying the same permutations, whose carried slots agree
/// tile by tile on leading ranges and bytes, answer every pattern alike.
pub proof fn lemma_same_carried_answer(a: GraphIndex, b: GraphIndex, pat: Pattern)
    requires
        a.perms == b.perms,
        a.sections@.len() == 6,
        forall|k: int|
            0 <= k < 6 && has_perm(b.perms, k) ==> (#[trigger] a.sections@[k])@.map_values(|t: Tile| tile_view(t))
                == slot_tiles(b.sections@, k).map_values(|t: Tile| tile_view(t)),
    ensures
        index_matches(a.perms, a.sections@, pat) == index_matches(b.perms, b.sections@, pat),
{
    lemma_route(a.perms, pat);
    if let Some(k) = route(a.perms, pat) {
        assert(a.sections@[k]@.map_values(|t: Tile| tile_view(t)) == slot_tiles(b.sections@, k).map_values(|t: Tile| tile_view(t)));
        lemma_section_matches_views(k, a.sections@[k]@, slot_tiles(b.sections@, k), pat);
        if k >= b.sections@.len() {
            assert(section_matches(k, slot_tiles(b.sections@, k), pat) == Seq::<Triple>::empty());
        }
    }
}

/// The query law: every pattern matched against the index of an opened
/// image written from the index of `ts` gives back exactly the triples of
/// `ts` that the pattern matches.
#[verifier::rlimit(50)]
#[verifier::spinoff_prover]
pub proof fn lemma_file_answers(
    dict: Dictionary,
    ts: Seq<Triple>,
    index: GraphIndex,
    has_quads: bool,
    pyramid_meta: Seq<u8>,
    pyramid_levels: u16,
    image: Vec<u8>,
    r: Rete,
    pat: Pattern,
)
    requires
        index_of(index, ts),
        index.perms % 64 != 0,
        slots_fit(index),
        section_fits(dict.shared_terms()),
        section_fits(dict.subject_terms()),
        section_fits(dict.object_terms()),
        section_fits(dict.predicate_terms()),
        dataset_written(
            image@,
            container_bytes(dict_payloads(dict)),
            recorded_term_count(dict),
            index,
            seq![],
            has_quads,
            dict.spec_has_quoted_triples(),
            pyramid_meta,
            pyramid_levels,
            seq![],
            seq![],
            CODEC_NONE,
        ),
        image@.len() > 0,
        opened(image@, r),
    ensures
        index_matches(r.index.perms, r.index.sections@, pat) == index_matches(index.perms, index.sections@, pat),
        forall|x: Triple| #[trigger] index_matches(r.index.perms, r.index.sections@, pat).contains(x) <==> (
            ts.contains(x) && crate::index::matches(pat, x)),
{
    lemma_file_roundtrip(dict, index, has_quads, pyramid_meta, pyramid_levels, image, r);
    lemma_same_carried_answer(r.index, index, pat);
    lemma_match_pattern_exact(index, ts, pat);
}

/// The metadata an opened image written by a dataset writer carries is the
/// metadata it was written with.
#[verifier::rlimit(100)]
#[verifier::spinoff_prover]
proof fn lemma_image_metadata(
    version: u8,
    ix: Seq<u8>,
    nm: Seq<u8>,
    named: Seq<(Vec<u8>, GraphIndex)>,
    dc: Seq<u8>,
    tc: u64,
    index: GraphIndex,
    has_quads: bool,
    hq: bool,
    pyramid_meta: Seq<u8>,
    pyramid_levels: u16,
    metadata: Seq<u8>,
    text: Seq<u8>,
    codec: u8,
    image: Vec<u8>,
    r: Rete,
)
    requires
        image@ == dataset_image(
            version,
            ix,
            nm,
            named,
            dc,
            tc,
            index,
            has_quads,
            hq,
            pyramid_meta,
            pyramid_levels,
            metadata,
            text,
            codec,
        ),
        opened(image@, r),
    ensures
        r.metadata@ == metadata,
{
    let img = image@;
    let np = if named.len() == 0 { Seq::<u8>::empty() } else { nm };
    let flags = dataset_flags(has_quads, hq);
    let quads = dataset_quads(index, named) as u64;
    let v = assembled_view(version, flags, pyramid_levels, index.perms, quads, tc, 0, codec, metadata, dc, ix, pyramid_meta, text, np);
    assert(view_wf(v));
    assert(img.len() == image.len());
    assert(assembly_fits(metadata, dc, ix, pyramid_meta, text, np));
    lemma_layout_parts(version, v.1, flags, pyramid_levels, index.perms, quads, tc, 0, codec, metadata, dc, ix, pyramid_meta, text, np);
    crate::image::lemma_layout_meta(version, v.1, flags, pyramid_levels, index.perms, quads, tc, 0, codec, metadata, dc, ix, pyramid_meta, text, np);
    let f = v.2;
    let h = r.header;
    assert(crate::header::scalar_fields(h) == f);
    crate::header::lemma_scalar_fields(h);
    assert(h.metadata_len == f[F_META_LEN as int]);
    assert(h.metadata_offset == f[F_META_OFF as int]);
    if metadata.len() == 0 {
        assert(metadata =~= Seq::<u8>::empty());
    }
}

/// The metadata law: an image a dataset writer produced, once opened,
/// carries exactly the metadata it was written with.
pub proof fn lemma_written_metadata(
    dict_container: Seq<u8>,
    term_count: u64,
    index: GraphIndex,
    named: Seq<(Vec<u8>, GraphIndex)>,
    has_quads: bool,
    has_quoted_triples: bool,
    pyramid_meta: Seq<u8>,
    pyramid_levels: u16,
    metadata: Seq<u8>,
    text_index: Seq<u8>,
    codec: u8,
    image: Vec<u8>,
    r: Rete,
)
    requires
        dataset_written(
            image@,
            dict_container,
            term_count,
            index,
            named,
            has_quads,
            has_quoted_triples,
            pyramid_meta,
            pyramid_levels,
            metadata,
            text_index,
            codec,
        ),
        image@.len() > 0,
        opened(image@, r),
    ensures
        r.metadata@ == metadata,
{
    if dataset_families(index, named, codec) {
        let (ix, nm) = choose|ix: Seq<u8>, nm: Seq<u8>|
            #[trigger] paired_written(
                image@,
                ix,
                nm,
                dict_container,
                term_count,
                index,
                named,
                has_quads,
                has_quoted_triples,
                pyramid_meta,
                pyramid_levels,
                metadata,
                text_index,
                codec,
            );
        lemma_image_metadata(NEXT_FORMAT_VERSION, ix, nm, named, dict_container, term_count, index, has_quads, has_quoted_triples, pyramid_meta, pyramid_levels, metadata, text_index, codec, image, r);
    } else {
        lemma_image_metadata(LEGACY_FORMAT_VERSION, legacy_container(index), legacy_named(named), named, dict_container, term_count, index, has_quads, has_quoted_triples, pyramid_meta, pyramid_levels, metadata, text_index, codec, image, r);
    }
}

} // verus!
