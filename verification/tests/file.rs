use std::collections::BTreeSet;

use rete_core::codec::{decompress, writer_codec, FileError, CODEC_NONE, CODEC_ZSTD};
use rete_core::container::{decode_container, encode_container};
use rete_core::dict::{
    decode_dictionary_container, encode_chunked_dict_section, encode_dict_container, parse_chunk_dir_only,
    parse_chunked_dict_dir, run_first_term, run_last_term, section_bytes, shortest_separator, ChunkDirParse,
    Dictionary,
};
use rete_core::family::{decode_family_container, encode_family_container, PREFIX2_FORMAT_BUDGET};
use rete_core::header::{Header, HEADER_LEN, MAGIC};
use rete_core::image::{attach_build_info, plan_build_info, read_build_info, replace_metadata, verify};
use rete_core::index::{GraphIndex, PERMS_ALL};
use rete_core::indexfile::{decode_family_index_container, encode_family_index_container};
use rete_core::rete::{Rete, SearchView};
use rete_core::schema::{schema_classes, schema_summary, RDF_TYPE};
use rete_core::provenance::IndexPermutation;
use rete_core::reader::{read_card_and_build_info_ranged, read_metadata_ranged, MemReader};
use rete_core::tiled::{decode_tiled_section, encode_tiled_section, parse_tile_directory};
use rete_core::varint::{read_uvarint, write_uvarint};
use rete_core::writer::{write_dataset, write_dataset_with_metadata, write_file};

fn b(s: &str) -> Vec<u8> {
    s.as_bytes().to_vec()
}

fn small_dictionary() -> Dictionary {
    Dictionary {
        shared: vec![b("Bob")],
        subjects: vec![b("Alice")],
        objects: vec![b("30"), b("Carol")],
        predicates: vec![b("age"), b("knows")],
    }
}

fn small_triples(dict: &Dictionary) -> Vec<(u32, u32, u32)> {
    [("Alice", "knows", "Bob"), ("Bob", "knows", "Carol"), ("Alice", "age", "30")]
        .iter()
        .map(|(s, p, o)| dict.encode(s, p, o).unwrap())
        .collect()
}

fn build_image() -> Vec<u8> {
    let dict = small_dictionary();
    let index = GraphIndex::build(&small_triples(&dict), PERMS_ALL);
    write_file(&dict, &index, false, &[], 0)
}

fn sorted(mut v: Vec<(Vec<u8>, Vec<u8>, Vec<u8>)>) -> Vec<(Vec<u8>, Vec<u8>, Vec<u8>)> {
    v.sort();
    v
}

#[test]
fn file_round_trips_header_and_counts() {
    let bytes = build_image();
    let rete = Rete::open(&bytes).unwrap();
    assert_eq!(rete.header().quad_count, 3);
    assert!(rete.header().term_count >= 5);
    let expected_codec = writer_codec();
    assert_eq!(rete.header().dict_codec, expected_codec);
    assert_eq!(rete.header().block_codec, expected_codec);
    assert_eq!(&bytes[bytes.len() - 4..], &MAGIC); // footer marker
}

#[test]
fn written_image_verifies_and_answers_every_pattern() {
    let bytes = build_image();
    assert_eq!(verify(&bytes), Ok(true));
    let rete = Rete::open(&bytes).unwrap();
    assert_eq!(rete.query(None, None, None).len(), 3);
    assert_eq!(
        sorted(rete.query(Some("Alice"), None, None)),
        vec![(b("Alice"), b("age"), b("30")), (b("Alice"), b("knows"), b("Bob"))]
    );
    assert_eq!(rete.query(None, Some("knows"), None).len(), 2);
    assert_eq!(rete.query(None, None, Some("Carol")), vec![(b("Bob"), b("knows"), b("Carol"))]);
    assert_eq!(rete.query(Some("Carol"), None, None).len(), 0, "Carol is never a subject");
    assert_eq!(rete.query(None, Some("hates"), None).len(), 0);
    assert_eq!(rete.dump(None).len(), 3);
    assert!(rete.dump(Some("<http://ex/none>")).is_empty());
    assert!(!rete.index_incomplete());
    assert!(rete.metadata().is_none());
    assert!(rete.pyramid().is_none());
    assert!(!rete.has_text_index());
    assert_eq!(rete.text_index_token_table_len(), None);
    assert_eq!(rete.named_graph_count(), 0);
}

#[test]
fn dictionary_round_trips_through_its_container() {
    let dict = small_dictionary();
    let bytes = encode_dict_container(&dict, CODEC_NONE);
    let back = decode_dictionary_container(&bytes, CODEC_NONE).unwrap();
    assert_eq!(back.shared, dict.shared);
    assert_eq!(back.subjects, dict.subjects);
    assert_eq!(back.objects, dict.objects);
    assert_eq!(back.predicates, dict.predicates);
}

#[test]
fn dictionary_ids_follow_the_shared_then_own_numbering() {
    let dict = small_dictionary();
    assert_eq!(dict.subject_id("Bob"), Some(1));
    assert_eq!(dict.subject_id("Alice"), Some(2));
    assert_eq!(dict.object_id("Bob"), Some(1));
    assert_eq!(dict.object_id("30"), Some(2));
    assert_eq!(dict.object_id("Carol"), Some(3));
    assert_eq!(dict.predicate_id("knows"), Some(2));
    assert_eq!(dict.subject_term(2), Some(b("Alice")));
    assert_eq!(dict.object_term(3), Some(b("Carol")));
    assert_eq!(dict.subject_term(0), None);
    assert_eq!(dict.subject_term(3), None);
    assert_eq!(dict.object_node(2), 3, "object-only ids follow the subject-only ones");
    assert_eq!(dict.object_node(1), 1);
    assert_eq!(dict.term_count(), 6);
    assert!(!dict.has_quoted_triples());
    assert_eq!(dict.encode("Alice", "knows", "Carol"), Some((2, 2, 3)));
    assert_eq!(dict.encode("Alice", "knows", "Dave"), None);
}

#[test]
fn metadata_is_hashed_replaceable_and_build_info_is_not_hashed() {
    let dict = small_dictionary();
    let index = GraphIndex::build(&small_triples(&dict), PERMS_ALL);
    let named: Vec<(Vec<u8>, GraphIndex)> = Vec::new();
    let with_card = write_dataset_with_metadata(&dict, &index, &named, false, &[], 0, b"{\"card\":1}", &[]);
    assert_eq!(verify(&with_card), Ok(true));
    let rete = Rete::open(&with_card).unwrap();
    assert_eq!(rete.metadata(), Some(&b"{\"card\":1}"[..]));

    let replaced = replace_metadata(&with_card, b"{}").unwrap();
    assert_eq!(verify(&replaced), Ok(true));
    assert_eq!(Rete::open(&replaced).unwrap().metadata(), Some(&b"{}"[..]));

    let mut tampered = with_card.clone();
    let meta_at = rete.header().metadata_offset as usize;
    tampered[meta_at] ^= 1;
    assert_eq!(verify(&tampered), Ok(false));

    let plain = build_image();
    let with_info = attach_build_info(&plain, b"built here").unwrap();
    assert_eq!(verify(&with_info), Ok(true));
    assert_eq!(read_build_info(&with_info).unwrap(), Some(b("built here")));
    assert_eq!(read_build_info(&plain).unwrap(), None);
}

#[test]
fn named_graphs_round_trip_and_tag_quads() {
    let dict = small_dictionary();
    let ids = small_triples(&dict);
    let default_index = GraphIndex::build(&ids[..1].to_vec(), PERMS_ALL);
    let g = GraphIndex::build(&ids[1..].to_vec(), PERMS_ALL);
    let named = vec![(b("<http://ex/g>"), g)];
    let bytes = write_dataset(&dict, &default_index, &named, true, &[], 0);
    assert_eq!(verify(&bytes), Ok(true));
    let rete = Rete::open(&bytes).unwrap();
    assert_eq!(rete.header().quad_count, 3);
    assert_eq!(rete.named_graph_count(), 1);
    assert_eq!(rete.named_graph_name_at(0), Some(&b"<http://ex/g>"[..]));
    assert_eq!(rete.named_graph_name_at(1), None);
    assert_eq!(rete.graph_names(), vec![b("<http://ex/g>")]);
    assert!(rete.graph_index("<http://ex/g>").is_some());
    assert!(rete.graph_index("<http://ex/h>").is_none());
    assert_eq!(rete.query_in_graph(Some("<http://ex/g>"), None, None, None).len(), 2);
    assert_eq!(rete.query_in_graph(None, None, None, None).len(), 1);
    let quads = rete.query_quads(None, Some("knows"), None);
    assert_eq!(quads.len(), 2);
    assert_eq!(quads[0].1, None);
    assert_eq!(quads[1].1, Some(b("<http://ex/g>")));
}

#[test]
fn ranged_open_matches_the_resident_open_without_the_card() {
    let dict = small_dictionary();
    let index = GraphIndex::build(&small_triples(&dict), PERMS_ALL);
    let named: Vec<(Vec<u8>, GraphIndex)> = Vec::new();
    let bytes = write_dataset_with_metadata(&dict, &index, &named, false, &[], 0, b"card", &[]);
    let mut reader = MemReader::new(bytes.clone());
    let ranged = Rete::open_ranged(&mut reader).unwrap();
    let resident = Rete::open(&bytes).unwrap();
    assert_eq!(sorted(ranged.dump(None)), sorted(resident.dump(None)));
    assert!(ranged.metadata().is_none());
    assert!(resident.metadata().is_some());

    let view = SearchView::open_ranged(&mut reader).unwrap();
    assert_eq!(view.header().quad_count, 3);
    assert!(!view.has_text_index());
    assert!(!view.has_pyramid());
    assert_eq!(view.dict.subject_term(2), Some(b("Alice")));
    assert!(view.dict.objects.is_empty());
}

#[test]
fn truncated_image_is_a_header_error() {
    assert!(matches!(Rete::open(&[0u8; 10]), Err(FileError::Header(_))));
}

#[test]
fn tile_directory_offsets_survive_past_4gib() {
    let mut dir = Vec::new();
    write_uvarint(&mut dir, 2); // two tiles
    write_uvarint(&mut dir, 5); // tile 1: minimum delta
    write_uvarint(&mut dir, 0); //         span
    write_uvarint(&mut dir, 3 << 30); //   len = 3 GiB
    write_uvarint(&mut dir, 1); // tile 2: minimum delta
    write_uvarint(&mut dir, 0);
    write_uvarint(&mut dir, 2 << 30); //   len = 2 GiB
    let total = dir.len() as u64 + (3u64 << 30) + (2u64 << 30) + 64;
    let entries = parse_tile_directory(&dir, total).unwrap();
    assert_eq!(entries.len(), 2);
    assert_eq!(entries[1].start, dir.len() as u64 + (3u64 << 30));
    assert!(entries[1].end > u32::MAX as u64, "tail tile sits past 4 GiB");
    // a total smaller than the tiles must still reject the directory
    assert!(parse_tile_directory(&dir, 1 << 20).is_err());
}

#[test]
fn empty_family_root_is_three_zero_count_families() {
    let index = GraphIndex::build(&Vec::new(), PERMS_ALL);
    assert_eq!(
        encode_family_index_container(&index, CODEC_NONE).unwrap(),
        vec![3, 3, 0, 0, 0, 3, 0, 0, 0, 3, 0, 0, 0]
    );
}

#[test]
fn family_index_round_trips_its_tiles() {
    let dict = small_dictionary();
    let index = GraphIndex::build(&small_triples(&dict), PERMS_ALL);
    let bytes = encode_family_index_container(&index, CODEC_NONE).unwrap();
    let back = decode_family_index_container(&bytes, CODEC_NONE).unwrap();
    for k in 0..6 {
        assert_eq!(back.sections[k].len(), index.sections[k].len());
        for (a, t) in back.sections[k].iter().zip(&index.sections[k]) {
            assert_eq!((a.min_a, a.max_a, &a.bytes), (t.min_a, t.max_a, &t.bytes));
        }
    }
    let mut all = back.match_pattern((None, None, None));
    all.sort();
    let mut want = small_triples(&dict);
    want.sort();
    assert_eq!(all, want);
}

#[test]
fn family_varints_are_canonical_and_bounded() {
    for malformed in [
        vec![0x80, 0x00],
        vec![0x80, 0x80, 0x80, 0x80, 0x80, 0x80, 0x80, 0x80, 0x80, 0x02],
    ] {
        assert!(decode_family_container(&malformed, CODEC_NONE).is_err());
    }
}

#[test]
fn family_rejects_prefix2_length_over_fixed_budget_before_record_decode() {
    let mut directory = vec![1, 0, 0, 0];
    write_uvarint(&mut directory, PREFIX2_FORMAT_BUDGET as u64 + 1);
    directory.extend_from_slice(&[0, 0, 0]);
    let trailer = [0; 8];
    let mut malformed = Vec::new();
    write_uvarint(&mut malformed, 1);
    write_uvarint(&mut malformed, directory.len() as u64);
    write_uvarint(&mut malformed, trailer.len() as u64);
    malformed.extend_from_slice(&directory);
    malformed.extend_from_slice(&trailer);
    assert!(matches!(
        decode_family_container(&malformed, CODEC_NONE),
        Err(FileError::Container("prefix-2 blob exceeds fixed budget"))
    ));
}

#[test]
fn eager_dictionary_directory_rejects_unmaterializable_chunk_before_loading() {
    let mut header = Vec::new();
    write_uvarint(&mut header, 1); // one term
    write_uvarint(&mut header, 1); // restart interval
    write_uvarint(&mut header, 1); // one restart offset
    write_uvarint(&mut header, 0); // raw body begins immediately after header

    let mut payload = Vec::new();
    write_uvarint(&mut payload, header.len() as u64);
    payload.extend_from_slice(&header);
    write_uvarint(&mut payload, 1); // one chunk
    write_uvarint(&mut payload, 0); // first run delta
    write_uvarint(&mut payload, 1); // first term length
    payload.push(b'x');
    write_uvarint(&mut payload, isize::MAX as u64 + 1);

    assert!(parse_chunked_dict_dir(&payload, u64::MAX).is_err());
}

#[test]
fn dictionary_directory_rejects_unmaterializable_chunk_before_loading() {
    let mut directory = Vec::new();
    write_uvarint(&mut directory, 1); // one chunk for one restart run
    write_uvarint(&mut directory, 0); // first run delta
    write_uvarint(&mut directory, 1); // first-term length
    directory.push(b'x');
    write_uvarint(&mut directory, isize::MAX as u64 + 1);

    assert!(parse_chunk_dir_only(&directory, u64::MAX, 1).is_err());
}

#[test]
fn chunk_directory_prefix_reports_truncation_not_failure() {
    let mut directory = Vec::new();
    write_uvarint(&mut directory, 2);
    write_uvarint(&mut directory, 0);
    write_uvarint(&mut directory, 1);
    directory.push(b'a');
    write_uvarint(&mut directory, 5);
    write_uvarint(&mut directory, 1);
    write_uvarint(&mut directory, 1);
    directory.push(b'm');
    write_uvarint(&mut directory, 7);
    let full = parse_chunk_dir_only(&directory, 100, 2).unwrap();
    match full {
        ChunkDirParse::Done(es) => {
            assert_eq!(es.len(), 2);
            assert_eq!((es[0].first_run, es[1].first_run), (0, 1));
            assert_eq!(es[1].key, b("m"));
            assert_eq!(es[0].end - es[0].start, 5);
            assert_eq!(es[1].start, es[0].end);
        }
        other => panic!("expected a whole directory, got {other:?}"),
    }
    match parse_chunk_dir_only(&directory[..6], 100, 2).unwrap() {
        ChunkDirParse::Truncated { parsed, used, total } => {
            assert_eq!((parsed, total), (1, 2));
            assert_eq!(used, 5);
        }
        other => panic!("expected a truncated prefix, got {other:?}"),
    }
}

fn adversarial_terms() -> Vec<String> {
    let mut terms: Vec<String> = Vec::new();
    for i in 0..6_000 {
        terms.push(format!("<http://example.org/work/{i:06}>"));
    }
    let shared = "X".repeat(900);
    for i in 0..4_000 {
        terms.push(format!("\"{shared}-{i:05}-tail\""));
    }
    let deep = "Y".repeat(3_000); // shared prefix far past any short key
    for i in 0..120 {
        terms.push(format!("\"{deep}{i:03}\""));
    }
    for i in 0..6 {
        // one literal larger than the 64 KiB budget: a chunk of one run
        terms.push(format!("\"BIG-{i:02}-{}\"", "Z".repeat(90_000)));
    }
    for i in 0..800 {
        terms.push(format!("\"h\u{e9}llo-{}-\u{1F600}{i:04}\"", "\u{e9}".repeat(40)));
    }
    for i in 0..2_000 {
        terms.push(format!("\"{i:05}-{}\"", "T".repeat(1_800)));
    }
    terms.sort();
    terms.dedup();
    terms
}

fn chunked_section_of(terms: &[String]) -> Vec<u8> {
    let owned: Vec<Vec<u8>> = terms.iter().map(|t| t.as_bytes().to_vec()).collect();
    section_bytes(&owned)
}

/// Each chunk's (first term, last term), decoded from the bodies.
fn chunk_bounds_of(payload: &[u8], codec: u8) -> Vec<(Vec<u8>, Vec<u8>)> {
    let (_meta, entries) = parse_chunked_dict_dir(payload, payload.len() as u64).unwrap();
    entries
        .iter()
        .map(|e| {
            let body = decompress(codec, &payload[e.start as usize..e.end as usize]).unwrap();
            (run_first_term(&body, 0).unwrap(), run_last_term(&body, 0, body.len()).unwrap())
        })
        .collect()
}

#[test]
fn chunk_directory_keys_are_separators_not_terms() {
    let terms = adversarial_terms();
    let raw = chunked_section_of(&terms);
    let payload = encode_chunked_dict_section(&raw, CODEC_NONE);
    let (_meta, entries) = parse_chunked_dict_dir(&payload, payload.len() as u64).unwrap();
    let bounds = chunk_bounds_of(&payload, CODEC_NONE);
    assert!(entries.len() > 20, "need a many-chunk section, got {}", entries.len());

    assert!(entries[0].key.is_empty(), "chunk 0 needs no separator");
    let mut key_bytes = 0usize;
    let mut term_bytes = 0usize;
    let mut differ = 0usize;
    for (i, e) in entries.iter().enumerate() {
        key_bytes += e.key.len();
        term_bytes += bounds[i].0.len();
        if e.key != bounds[i].0 {
            differ += 1;
        }
        assert!(e.key <= bounds[i].0, "chunk {i}: key must be <= its own first term");
        if i > 0 {
            assert!(
                e.key.as_slice() > bounds[i - 1].1.as_slice(),
                "chunk {i}: key must be > the previous chunk's last term"
            );
            assert!(e.key > entries[i - 1].key, "chunk {i}: keys must ascend for partition_point");
            // shortest: one byte past the divergence from the predecessor
            assert_eq!(
                e.key,
                shortest_separator(&bounds[i - 1].1, &bounds[i].0),
                "chunk {i}: key is not the SHORTEST separator"
            );
        }
    }
    assert!(differ > 0, "every key equalled its first term — the writer stores terms again");
    assert!(
        key_bytes * 4 < term_bytes,
        "separators bought almost nothing: {key_bytes} B vs {term_bytes} B of first terms"
    );
}

#[test]
fn container_round_trips_and_rejects_a_wrong_count() {
    let sections = vec![b("abc"), Vec::new(), b("z")];
    let bytes = encode_container(&sections, CODEC_NONE);
    assert_eq!(bytes, vec![3, 3, b'a', b'b', b'c', 0, 1, b'z']);
    assert_eq!(decode_container(&bytes, CODEC_NONE, 3).unwrap(), sections);
    assert!(decode_container(&bytes, CODEC_NONE, 2).is_err());
}

#[test]
fn varint_round_trips() {
    for v in [0u64, 1, 127, 128, 300, u32::MAX as u64, u64::MAX] {
        let mut out = Vec::new();
        write_uvarint(&mut out, v);
        assert_eq!(read_uvarint(&out), Some((v, out.len())));
    }
    let mut out = Vec::new();
    write_uvarint(&mut out, 300);
    assert_eq!(out, vec![0xac, 0x02]);
}

#[test]
fn header_round_trips() {
    let bytes = build_image();
    let h = Header::from_bytes(&bytes).unwrap();
    let again = h.to_bytes();
    assert_eq!(Header::from_bytes(&again).unwrap(), h);
}

#[test]
fn decompress_rejects_what_is_not_zstd_and_unknown_codecs() {
    assert_eq!(decompress(CODEC_NONE, b"plain").unwrap(), b("plain"));
    assert_eq!(decompress(CODEC_ZSTD, b"garbage"), Err(FileError::Decompress));
    assert_eq!(decompress(9, b"x"), Err(FileError::UnknownCodec(9)));
}

#[test]
fn partial_permutation_image_is_first_generation_and_answers_every_pattern() {
    let dict = small_dictionary();
    // subject-first and object-first orders only
    let perms: u8 = 0b0000_0101;
    let index = GraphIndex::build(&small_triples(&dict), perms);
    let bytes = write_file(&dict, &index, false, &[], 0);
    assert_eq!(verify(&bytes), Ok(true));
    let rete = Rete::open(&bytes).unwrap();
    assert_eq!(rete.header().version, 0x05);
    assert_eq!(rete.header().perms, perms);
    assert_eq!(rete.query(None, None, None).len(), 3);
    assert_eq!(
        sorted(rete.query(Some("Alice"), None, None)),
        vec![(b("Alice"), b("age"), b("30")), (b("Alice"), b("knows"), b("Bob"))]
    );
    assert_eq!(rete.query(None, Some("knows"), None).len(), 2);
    assert_eq!(rete.query(None, None, Some("Carol")), vec![(b("Bob"), b("knows"), b("Carol"))]);
    assert_eq!(rete.dictionary().subject_id("Alice"), Some(2));
}

#[test]
fn tiled_section_round_trips_its_tiles() {
    let dict = small_dictionary();
    let index = GraphIndex::build(&small_triples(&dict), PERMS_ALL);
    for slot in &index.sections {
        let payload = encode_tiled_section(slot, CODEC_NONE);
        let back = decode_tiled_section(&payload, CODEC_NONE).unwrap();
        assert_eq!(back.len(), slot.len());
        for (t, (lo, hi, bytes)) in slot.iter().zip(back.iter()) {
            assert_eq!((t.min_a, t.max_a), (*lo, *hi));
            assert_eq!(&t.bytes, bytes);
        }
    }
}

#[test]
fn long_dictionary_sections_round_trip_across_restart_runs() {
    let shared: Vec<Vec<u8>> = (0..100).map(|i| format!("http://example.org/shared/{i:04}").into_bytes()).collect();
    let objects: Vec<Vec<u8>> = (0..40).map(|i| format!("\"literal {i}\"").into_bytes()).collect();
    let dict = Dictionary { shared, subjects: Vec::new(), objects, predicates: vec![b("p")] };
    let bytes = encode_dict_container(&dict, CODEC_NONE);
    let back = decode_dictionary_container(&bytes, CODEC_NONE).unwrap();
    assert_eq!(back.shared, dict.shared);
    assert!(back.subjects.is_empty());
    assert_eq!(back.objects, dict.objects);
    assert_eq!(back.predicates, dict.predicates);
}

#[test]
fn query_provenance_reports_terms_ids_sections_and_index_choice() {
    let dict = small_dictionary();
    let index = GraphIndex::build(&small_triples(&dict), PERMS_ALL);
    // the pyramid section is carried as opaque bytes
    let bytes = write_file(&dict, &index, false, b"pyramid-summary", 1);
    let rete = Rete::open(&bytes).unwrap();

    let mut matches = rete.query_with_provenance(None, Some("knows"), None);
    matches.sort_by(|a, b| a.terms.cmp(&b.terms));

    assert_eq!(matches.len(), 2);
    assert_eq!(matches[0].terms, (b("Alice"), b("knows"), b("Bob")));
    assert_eq!(matches[0].ids, rete.dictionary().encode("Alice", "knows", "Bob").unwrap());
    assert_eq!(matches[0].graph.as_deref(), None);
    assert_eq!(matches[0].matched_pattern, (None, Some(matches[0].ids.1), None));
    assert_eq!(matches[0].index_permutation, IndexPermutation::Pos);

    let h = rete.header();
    assert_eq!(matches[0].dictionary_range.offset, h.dictionary_offset);
    assert_eq!(matches[0].dictionary_range.len, h.dictionary_len);
    assert_eq!(matches[0].index_range.offset, h.root_dir_offset);
    assert_eq!(matches[0].index_range.len, h.root_dir_len);
    assert!(
        matches[0].index_section_range.offset > h.root_dir_offset,
        "POS is section 1, so its payload starts after the container header and SPO payload"
    );
    assert!(matches[0].index_section_range.len > 0);
    assert!(matches[0].index_section_range.end() <= matches[0].index_range.end());
    assert!(matches[0].index_section_range.len < matches[0].index_range.len);
    assert_eq!(
        matches[0].pyramid_range.as_ref().map(|r| (r.offset, r.len)),
        Some((h.pyramid_meta_offset, h.pyramid_meta_len))
    );
    let tile_range = matches[0].tile_range.expect("tiled file reports a tile");
    assert!(matches[0].tile.as_deref().unwrap().starts_with(&matches[0].index_permutation.name_bytes()));
    assert!(matches[0].index_section_range.offset <= tile_range.offset);
    assert!(tile_range.end() <= matches[0].index_section_range.end());
}

#[test]
fn provenance_of_an_unknown_term_is_empty_and_tiles_are_labelled() {
    let bytes = build_image();
    let rete = Rete::open(&bytes).unwrap();
    assert!(rete.query_with_provenance(Some("Zed"), None, None).is_empty());
    let all = rete.query_with_provenance(None, None, None);
    assert_eq!(all.len(), 3);
    for m in &all {
        assert_eq!(m.index_permutation, IndexPermutation::Spo);
        assert_eq!(m.tile.as_deref(), Some(&b"SPO/0"[..]));
        assert!(m.pyramid_range.is_none());
    }
}

#[test]
fn layout_header_label_matches_its_span() {
    let mut subjects: Vec<Vec<u8>> = (0..5).map(|i| format!("<http://ex/s{i}>").into_bytes()).collect();
    let mut predicates: Vec<Vec<u8>> = (0..3).map(|i| format!("<http://ex/p{i}>").into_bytes()).collect();
    let mut objects: Vec<Vec<u8>> = (0..24).map(|i| format!("<http://ex/o{i}>").into_bytes()).collect();
    subjects.sort();
    predicates.sort();
    objects.sort();
    let dict = Dictionary { shared: Vec::new(), subjects, objects, predicates };
    let ids: Vec<(u32, u32, u32)> = (0..24u32)
        .map(|i| {
            let (s, p, o) = (format!("<http://ex/s{}>", i % 5), format!("<http://ex/p{}>", i % 3), format!("<http://ex/o{i}>"));
            dict.encode(&s, &p, &o).unwrap()
        })
        .collect();
    let index = GraphIndex::build(&ids, PERMS_ALL);
    let named: Vec<(Vec<u8>, GraphIndex)> = Vec::new();
    let image = write_dataset_with_metadata(&dict, &index, &named, false, &[], 0, br#"{"name":"layout-label-fixture"}"#, &[]);
    let rete = Rete::open(&image).unwrap();

    let layout = rete.file_layout();
    let header = layout
        .iter()
        .find(|s| s.kind == "header")
        .expect("every layout starts with a header segment");
    assert_eq!(header.offset, 0, "the header is the first thing in the file");
    assert_eq!(header.len, 1024, "the header segment must span exactly HEADER_LEN");
    let label = String::from_utf8(header.label.clone()).unwrap();
    let digits: String = label
        .chars()
        .skip_while(|c| !c.is_ascii_digit())
        .take_while(|c| c.is_ascii_digit())
        .collect();
    assert!(!digits.is_empty(), "header label {:?} states no size at all", label);
    assert_eq!(
        digits.parse::<u64>().unwrap(),
        header.len,
        "header label {:?} disagrees with the {}-byte span it describes",
        label,
        header.len
    );
    assert!(
        layout.windows(2).all(|w| w[0].offset <= w[1].offset),
        "file_layout must return segments sorted by offset"
    );
}

#[test]
fn layout_lists_every_region_with_its_label() {
    let bytes = build_image();
    let rete = Rete::open(&bytes).unwrap();
    let layout = rete.file_layout();
    let kinds: Vec<&str> = layout.iter().map(|s| s.kind).collect();
    assert_eq!(kinds[0], "header");
    assert_eq!(kinds[1], "dictionary");
    assert!(!kinds.contains(&"metadata"));
    let tiles: Vec<String> = layout
        .iter()
        .filter(|s| s.kind == "tile")
        .map(|s| String::from_utf8(s.label.clone()).unwrap())
        .collect();
    assert_eq!(tiles.len(), 6, "one tile per permutation for three triples");
    assert!(tiles.iter().any(|l| l.starts_with("SPO tile 0 (leading ids ")));
    let dict = layout.iter().find(|s| s.kind == "dictionary").unwrap();
    assert_eq!(String::from_utf8(dict.label.clone()).unwrap(), "dictionary (4 front-coded term sections)");
    assert_eq!(dict.offset, rete.header().dictionary_offset);
}

#[test]
fn dump_batch_drained_reproduces_the_dump() {
    let subjects: Vec<Vec<u8>> = (0..2000u32).map(|i| format!("<http://ex/s/{i:04}>").into_bytes()).collect();
    let objects: Vec<Vec<u8>> = (0..2000u32).map(|i| format!("<http://ex/o/{i:04}>").into_bytes()).collect();
    let dict = Dictionary { shared: Vec::new(), subjects, objects, predicates: vec![b("<http://ex/p>")] };
    let ids: Vec<(u32, u32, u32)> = (0..2000u32)
        .map(|i| dict.encode(&format!("<http://ex/s/{i:04}>"), "<http://ex/p>", &format!("<http://ex/o/{i:04}>")).unwrap())
        .collect();
    let bytes = write_file(&dict, &GraphIndex::build(&ids, PERMS_ALL), false, &[], 0);
    let rete = Rete::open(&bytes).unwrap();
    assert_eq!(rete.dump_iter(None), rete.dump(None));
    assert_eq!(rete.dump_iter(Some("http://ex/nope")).len(), 0);
    let drain = |max_quads: usize| {
        let (mut out, mut cursor, mut calls) = (Vec::new(), 0u32, 0);
        loop {
            let (batch, next, done) = rete.dump_batch(None, cursor, max_quads);
            out.extend(batch);
            cursor = next;
            calls += 1;
            assert!(calls < 10_000, "cursor failed to advance");
            if done {
                break out;
            }
        }
    };
    let eager = rete.dump(None);
    assert_eq!(eager.len(), 2000);
    for max in [1usize, 7, 128, 100_000] {
        assert_eq!(drain(max), eager, "batch size {max} changed the dump");
    }
    let (t, _, done) = rete.dump_batch(Some("http://ex/nope"), 0, 16);
    assert!(t.is_empty() && done);
    let (first, next, done) = rete.dump_batch(None, 0, 1);
    assert_eq!(first.len(), 1);
    assert_eq!(next, 2, "one subject per batch of one");
    assert!(!done);
}

/// A dictionary observing `triples`, laid out as a dictionary builder does:
/// shared, subject-only and object-only terms and predicates, each sorted.
fn dict_from(triples: &[(&str, &str, &str)]) -> Dictionary {
    let subjects: BTreeSet<&str> = triples.iter().map(|t| t.0).collect();
    let objects: BTreeSet<&str> = triples.iter().map(|t| t.2).collect();
    let predicates: BTreeSet<&str> = triples.iter().map(|t| t.1).collect();
    Dictionary {
        shared: subjects.intersection(&objects).map(|t| b(t)).collect(),
        subjects: subjects.difference(&objects).map(|t| b(t)).collect(),
        objects: objects.difference(&subjects).map(|t| b(t)).collect(),
        predicates: predicates.iter().map(|t| b(t)).collect(),
    }
}

fn build_from(triples: &[(&str, &str, &str)]) -> Vec<u8> {
    let dict = dict_from(triples);
    let ids: Vec<(u32, u32, u32)> = triples.iter().map(|(s, p, o)| dict.encode(s, p, o).unwrap()).collect();
    write_file(&dict, &GraphIndex::build(&ids, PERMS_ALL), false, &[], 0)
}

#[test]
fn schema_summary_groups_by_type() {
    let rt = RDF_TYPE;
    let bytes = build_from(&[
        ("Alice", rt, "Person"),
        ("Bob", rt, "Person"),
        ("NYC", rt, "City"),
        ("Alice", "knows", "Bob"),
        ("Alice", "livesIn", "NYC"),
        ("Alice", "name", "\"Alice\""),
    ]);
    let rete = Rete::open(&bytes).unwrap();
    let summary = schema_summary(&rete);
    assert!(summary.contains(&(b("Person"), b("knows"), b("Person"), 1)));
    assert!(summary.contains(&(b("Person"), b("livesIn"), b("City"), 1)));
    assert!(summary.contains(&(b("Person"), b("name"), b("(literal)"), 1)));
    assert!(!summary.iter().any(|(_, p, _, _)| p.as_slice() == RDF_TYPE.as_bytes()));

    let classes = schema_classes(&rete);
    assert_eq!(classes, vec![(b("Person"), 2u32), (b("City"), 1u32)]);
}

#[test]
fn schema_summary_counts_untyped_terms_and_sorts_its_groups() {
    let rt = RDF_TYPE;
    let bytes = build_from(&[
        ("a", rt, "T"),
        ("a", "p", "x"),
        ("a", "p", "y"),
        ("z", "p", "a"),
    ]);
    let rete = Rete::open(&bytes).unwrap();
    assert_eq!(
        schema_summary(&rete),
        vec![(b("(untyped)"), b("p"), b("T"), 1), (b("T"), b("p"), b("(untyped)"), 2)]
    );
    assert_eq!(schema_classes(&rete), vec![(b("T"), 1u32)]);
}

fn ranged_agrees_with_resident(bytes: &[u8]) {
    let rete = Rete::open(bytes).unwrap();
    let mut reader = MemReader::new(bytes.to_vec());
    let patterns: [(Option<&str>, Option<&str>, Option<&str>); 8] = [
        (None, None, None),
        (Some("Alice"), None, None),
        (None, Some("knows"), None),
        (None, None, Some("Carol")),
        (Some("Alice"), Some("knows"), None),
        (None, Some("knows"), Some("Bob")),
        (Some("Bob"), None, Some("Carol")),
        (Some("Alice"), Some("age"), Some("30")),
    ];
    for (s, p, o) in patterns {
        let ranged = Rete::query_ranged(&mut reader, s, p, o).unwrap();
        assert_eq!(sorted(ranged), sorted(rete.query(s, p, o)), "pattern {:?}", (s, p, o));
        assert_eq!(Rete::route_pattern_ranged(&mut reader, s, p, o), Ok(true));
    }
    assert_eq!(Rete::query_ranged(&mut reader, Some("Nobody"), None, None), Ok(Vec::new()));
    assert_eq!(Rete::route_pattern_ranged(&mut reader, None, Some("unknown"), None), Ok(false));
}

#[test]
fn ranged_query_answers_like_the_resident_query_in_both_generations() {
    let dict = small_dictionary();
    let all = write_file(&dict, &GraphIndex::build(&small_triples(&dict), PERMS_ALL), false, &[], 0);
    ranged_agrees_with_resident(&all);
    let partial = write_file(&dict, &GraphIndex::build(&small_triples(&dict), 0b0000_0101), false, &[], 0);
    assert_eq!(Rete::open(&partial).unwrap().header().version, 0x05);
    ranged_agrees_with_resident(&partial);
}

#[test]
fn ranged_query_of_a_truncated_image_fails() {
    let bytes = build_image();
    let mut reader = MemReader::new(bytes[..bytes.len() / 2].to_vec());
    assert!(Rete::query_ranged(&mut reader, Some("Alice"), None, None).is_err());
}

#[test]
fn predicate_pairs_lists_subject_object_nodes() {
    let bytes = build_image();
    let rete = Rete::open(&bytes).unwrap();
    let pairs = rete.predicate_pairs("knows");
    assert_eq!(pairs.len(), 2);
    assert!(rete.predicate_pairs("unknown").is_empty());
}

fn build_with_metadata(meta: &[u8]) -> Vec<u8> {
    let dict = small_dictionary();
    let index = GraphIndex::build(&small_triples(&dict), PERMS_ALL);
    let named: Vec<(Vec<u8>, GraphIndex)> = Vec::new();
    write_dataset_with_metadata(&dict, &index, &named, false, &[], 0, meta, &[])
}

#[test]
fn content_hash_is_set_and_verifies() {
    let bytes = build_image();
    let rete = Rete::open(&bytes).unwrap();
    assert_ne!(rete.header().content_hash, [0u8; 16], "hash must be populated");
    assert!(verify(&bytes).unwrap(), "freshly built file verifies");
    assert_eq!(Rete::open(&build_image()).unwrap().header().content_hash, rete.header().content_hash);
    let mut tampered = bytes.clone();
    let last = tampered.len() - 5;
    tampered[last] ^= 0xff;
    assert!(!verify(&tampered).unwrap());
}

#[test]
fn metadata_round_trips_and_shifts_offsets() {
    let card = br#"{"title":"My Dataset"}"#;
    let bytes = build_with_metadata(card);
    let rete = Rete::open(&bytes).unwrap();
    assert_eq!(rete.metadata(), Some(card.as_slice()));
    let h = rete.header();
    assert_eq!(h.metadata_offset, rete_core::header::HEADER_LEN as u64);
    assert_eq!(h.metadata_len, card.len() as u64);
    assert_eq!(h.dictionary_offset, rete_core::header::HEADER_LEN as u64 + card.len() as u64);
    assert_eq!(rete.query(Some("Bob"), Some("knows"), Some("Carol")).len(), 1);
    assert!(verify(&bytes).unwrap());
}

#[test]
fn empty_metadata_is_byte_identical_to_plain_writer() {
    assert_eq!(
        build_with_metadata(&[]),
        build_image(),
        "empty-metadata output must equal the plain writer byte-for-byte"
    );
}

#[test]
fn replace_metadata_matches_a_direct_write() {
    let first = br#"{"title":"My Dataset","queries":[1,2,3]}"#;
    let bytes = build_with_metadata(first);
    for target in [
        br#"{"title":"My Dataset","queries":[1,2]}"#.as_slice(),
        br#"{"title":"My Dataset","queries":[1,2,3,4,5,6,7]}"#.as_slice(),
        b"".as_slice(),
        first.as_slice(),
    ] {
        let spliced = replace_metadata(&bytes, target).unwrap();
        assert_eq!(spliced, build_with_metadata(target), "splicing {} bytes of metadata must equal a direct write", target.len());
        assert!(verify(&spliced).unwrap(), "the new hash covers the new card");
        let rete = Rete::open(&spliced).unwrap();
        assert_eq!(rete.metadata(), if target.is_empty() { None } else { Some(target) }, "the new payload reads back verbatim");
        assert_eq!(rete.query(Some("Bob"), Some("knows"), Some("Carol")).len(), 1);
    }
}

#[test]
fn replace_metadata_keeps_build_info_adjacent() {
    let with_info = attach_build_info(&build_with_metadata(br#"{"a":1}"#), br#"{"builder":"x"}"#).unwrap();
    let spliced = replace_metadata(&with_info, br#"{"a":1,"b":2}"#).unwrap();
    let h = Header::from_bytes(&spliced).unwrap();
    assert_eq!(h.metadata_offset, rete_core::header::HEADER_LEN as u64);
    assert_eq!(h.build_info_offset, rete_core::header::HEADER_LEN as u64 + h.metadata_len);
    assert_eq!(read_build_info(&spliced).unwrap().as_deref(), Some(br#"{"builder":"x"}"#.as_slice()));
    assert!(verify(&spliced).unwrap());
    assert_eq!(h.content_hash, Header::from_bytes(&build_with_metadata(br#"{"a":1,"b":2}"#)).unwrap().content_hash);
}

#[test]
fn metadata_is_tamper_evident() {
    let card = br#"{"title":"x"}"#;
    let mut bytes = build_with_metadata(card);
    assert!(verify(&bytes).unwrap());
    bytes[rete_core::header::HEADER_LEN + 2] ^= 0xff;
    assert!(!verify(&bytes).unwrap(), "tampering with the card must break verify()");
}

#[test]
fn family_container_rejects_malformed_directory_before_payload_allocation() {
    let malformed = [
        &[0x80][..],
        &[1, 1, 0, 4, 0, 0, 0, 0, 0][..],
        &[1, 1, 0, 0x80, 0x80, 0x80, 0x80, 0x10][..],
        &[0xff, 0xff, 0xff, 0xff, 0x0f][..],
    ];
    for bytes in malformed {
        assert!(decode_family_container(bytes, CODEC_NONE).is_err(), "malformed family bytes must fail");
    }
    let impossible_directory = [1, 81, 8];
    assert!(matches!(
        decode_family_container(&impossible_directory, CODEC_NONE),
        Err(FileError::Container("family directory exceeds varint framing"))
    ));
    let impossible_trailer = [1, 8, 81];
    assert!(matches!(
        decode_family_container(&impossible_trailer, CODEC_NONE),
        Err(FileError::Container("family trailer exceeds varint framing"))
    ));
}

#[test]
fn family_container_writes_each_tiles_prefix2_blob() {
    let index = GraphIndex::build(&vec![(1u32, 1u32, 1u32)], PERMS_ALL);
    let bytes = encode_family_container(&index.sections[0], &index.sections[3], CODEC_NONE).unwrap();
    assert_eq!(
        bytes,
        vec![
            1, 8, 8, // pair count; directory length; trailer length
            1, 0, // shared leading range delta/span
            0, 4, 7, // first order: flags, payload length, prefix-2 length
            0, 4, 7, // second order
            1, 1, 1, 1, 1, 1, 1, // first prefix-2 directory: one group, one entry
            1, 1, 1, 1, // first tile: one triple (1, 1, 1)
            1, 1, 1, 1, 1, 1, 1, // second prefix-2 directory
            1, 1, 1, 1, // second tile
            1, 0, 1, 0, // first synopsis
            1, 0, 1, 0, // second synopsis
        ]
    );
    let decoded = decode_family_container(&bytes, CODEC_NONE).unwrap();
    assert_eq!(decoded.directory.first_prefix2_lengths, vec![7]);
    assert_eq!(decoded.directory.first_prefix2[0].groups.len(), 1);
    assert_eq!(decoded.directory.first_prefix2[0].groups[0].b_entries, vec![(1, 1, 1)]);
}

#[test]
fn family_encoder_rejects_raw_tile_over_fixed_decoder_limit() {
    let index = GraphIndex::build(&vec![(1u32, 1u32, 1u32)], PERMS_ALL);
    let mut big = index.sections[0][0].clone();
    big.bytes = vec![0u8; 64 * 1024 + 1];
    let first = vec![big.clone()];
    let second = vec![big];
    assert_eq!(
        encode_family_container(&first, &second, CODEC_NONE),
        Err(FileError::Container("family tile exceeds fixed decompressed limit"))
    );
}

#[test]
fn family_encoder_accepts_an_empty_family_under_any_codec() {
    let empty: Vec<rete_core::index::Tile> = Vec::new();
    assert_eq!(encode_family_container(&empty, &empty, CODEC_ZSTD), Ok(vec![0, 0, 0]));
}

#[test]
fn named_graphs_round_trip() {
    let dict = dict_from(&[("Alice", "knows", "Bob"), ("Bob", "age", "30")]);
    let def = GraphIndex::build(&vec![dict.encode("Alice", "knows", "Bob").unwrap()], PERMS_ALL);
    let g1 = GraphIndex::build(&vec![dict.encode("Bob", "age", "30").unwrap()], PERMS_ALL);
    let named = vec![(b("http://ex/g1"), g1)];
    let bytes = write_dataset(&dict, &def, &named, true, &[], 0);
    assert!(verify(&bytes).unwrap());
    let rete = Rete::open(&bytes).unwrap();
    assert_eq!(rete.graph_names(), vec![b("http://ex/g1")]);
    let gi = rete.graph_index("http://ex/g1").unwrap();
    assert_eq!(gi.triple_count(), 1);
    assert!(rete.graph_index("http://ex/missing").is_none());
    assert_eq!(rete.header().quad_count, 2);
    assert_eq!(rete.query(Some("Alice"), None, None).len(), 1);
    assert_eq!(rete.dump(None), vec![(b("Alice"), b("knows"), b("Bob"))]);
    assert_eq!(rete.dump(Some("http://ex/g1")), vec![(b("Bob"), b("age"), b("30"))]);
}

#[test]
fn query_in_graph_is_graph_scoped() {
    let dict = dict_from(&[("Alice", "knows", "Bob"), ("Alice", "knows", "Carol"), ("Alice", "knows", "Dave")]);
    let def = GraphIndex::build(
        &vec![dict.encode("Alice", "knows", "Bob").unwrap(), dict.encode("Alice", "knows", "Carol").unwrap()],
        PERMS_ALL,
    );
    let g1 = GraphIndex::build(&vec![dict.encode("Alice", "knows", "Dave").unwrap()], PERMS_ALL);
    let named = vec![(b("http://ex/g1"), g1)];
    let bytes = write_dataset(&dict, &def, &named, true, &[], 0);
    let rete = Rete::open(&bytes).unwrap();
    let mut def_objs: Vec<Vec<u8>> =
        rete.query_in_graph(None, Some("Alice"), Some("knows"), None).into_iter().map(|(_, _, o)| o).collect();
    def_objs.sort();
    assert_eq!(def_objs, vec![b("Bob"), b("Carol")]);
    assert_eq!(
        rete.query_in_graph(Some("http://ex/g1"), Some("Alice"), None, None),
        vec![(b("Alice"), b("knows"), b("Dave"))]
    );
    assert_eq!(rete.query_in_graph(None, None, None, None).len(), 2);
    assert_eq!(rete.query_in_graph(Some("http://ex/g1"), None, None, None).len(), 1);
    assert!(rete.query_in_graph(Some("http://ex/missing"), None, None, None).is_empty());
}

fn bytes_read(reader: &MemReader) -> u64 {
    reader.log.iter().map(|r| r.1).sum()
}

#[test]
fn metadata_ranged_fetches_only_header_and_card() {
    let card = vec![0xCDu8; 384];
    let bytes = build_with_metadata(&card);
    let mut r = MemReader::new(bytes.clone());
    let got = read_metadata_ranged(&mut r).unwrap().unwrap();
    assert_eq!(got, card, "the card reads back verbatim");
    assert_eq!(r.log.len(), 2, "exactly header + metadata ranges");
    assert_eq!(bytes_read(&r), HEADER_LEN as u64 + card.len() as u64);

    let plain = build_image();
    let mut rp = MemReader::new(plain);
    assert!(read_metadata_ranged(&mut rp).unwrap().is_none());
    assert_eq!(rp.log.len(), 1, "header only for a cardless file");
    assert_eq!(bytes_read(&rp), HEADER_LEN as u64);
}

#[test]
fn card_and_build_info_ranged_is_one_header_plus_one_range() {
    let card = vec![0xCDu8; 384];
    let info = vec![0xEFu8; 200];
    let bytes = attach_build_info(&build_with_metadata(&card), &info).unwrap();
    let mut r = MemReader::new(bytes);
    let (m, bi) = read_card_and_build_info_ranged(&mut r).unwrap();
    assert_eq!(m.unwrap(), card);
    assert_eq!(bi.unwrap(), info);
    assert_eq!(r.log.len(), 2, "header + one coalesced range");
    assert_eq!(bytes_read(&r), HEADER_LEN as u64 + card.len() as u64 + info.len() as u64);

    let plain = build_with_metadata(&card);
    let mut rp = MemReader::new(plain);
    let (m, bi) = read_card_and_build_info_ranged(&mut rp).unwrap();
    assert_eq!(m.unwrap(), card);
    assert!(bi.is_none());
    assert_eq!(rp.log.len(), 2);
    assert_eq!(r.log.len(), rp.log.len(), "build info must not cost an extra request");

    let none = build_image();
    let mut rn = MemReader::new(none);
    let (m, bi) = read_card_and_build_info_ranged(&mut rn).unwrap();
    assert!(m.is_none() && bi.is_none());
    assert_eq!(rn.log.len(), 1);
}

#[test]
fn ranged_opens_do_not_fetch_metadata() {
    let card = vec![0xABu8; 512];
    let bytes = build_with_metadata(&card);
    let total = bytes.len() as u64;
    let mut r = MemReader::new(bytes.clone());
    let rete = Rete::open_ranged(&mut r).unwrap();
    assert!(rete.metadata().is_none(), "open_ranged must not load the card");
    assert!(r.log.len() <= 4, "requests = {}", r.log.len());
    assert!(bytes_read(&r) <= total - card.len() as u64);
    let header = Header::from_bytes(&bytes).unwrap();
    assert!(r.log.iter().all(|q| *q != (header.metadata_offset, header.metadata_len)));
}

#[test]
fn ranged_open_is_minimal_and_correct() {
    let bytes = build_image();
    let mut full = MemReader::new(bytes.clone());
    let rete = Rete::open_ranged(&mut full).unwrap();
    assert!(full.log.len() <= 4, "requests = {}", full.log.len());
    let resident = Rete::open(&bytes).unwrap();
    assert_eq!(sorted(rete.query(Some("Alice"), None, None)), sorted(resident.query(Some("Alice"), None, None)));
    assert!(!rete.query(Some("Alice"), None, None).is_empty());
}

#[test]
fn routing_fetches_only_header_dictionary_and_framing() {
    let bytes = build_image();
    let header = Header::from_bytes(&bytes).unwrap();
    let mut r = MemReader::new(bytes);
    assert_eq!(Rete::route_pattern_ranged(&mut r, Some("Alice"), None, None), Ok(true));
    assert_eq!(r.log[0], (0, HEADER_LEN as u64));
    assert_eq!(r.log[1], (header.dictionary_offset, header.dictionary_len));
    let root_end = header.root_dir_offset + header.root_dir_len;
    assert!(r.log[2..].iter().all(|q| q.1 <= 10 && q.0 >= header.root_dir_offset && q.0 + q.1 <= root_end));
}

#[test]
fn build_info_attaches_outside_the_hash() {
    let card = br#"{"title":"My Dataset"}"#;
    let base = build_with_metadata(card);
    let base_hash = Header::from_bytes(&base).unwrap().content_hash;
    let info = br#"{"built_at":"2026-08-04T00:00:00Z","builder":"rete-cli 0.3.2"}"#;
    let with = attach_build_info(&base, info).unwrap();
    assert_eq!(read_build_info(&with).unwrap().unwrap(), info);
    let h = Header::from_bytes(&with).unwrap();
    assert_eq!(h.build_info_offset, HEADER_LEN as u64 + card.len() as u64);
    assert_eq!(h.build_info_len, info.len() as u64);
    assert_eq!(h.content_hash, base_hash);
    assert!(verify(&with).unwrap());
    let other = attach_build_info(&base, br#"{"built_at":"1999-01-01T00:00:00Z"}"#).unwrap();
    assert_eq!(Header::from_bytes(&other).unwrap().content_hash, base_hash);
    let rete = Rete::open(&with).unwrap();
    assert_eq!(rete.query(Some("Bob"), Some("knows"), Some("Carol")).len(), 1);
    assert_eq!(rete.metadata(), Some(card.as_slice()));
    let replaced = attach_build_info(&with, br#"{"builder":"other"}"#).unwrap();
    assert_eq!(read_build_info(&replaced).unwrap().unwrap(), br#"{"builder":"other"}"#);
    assert!(verify(&replaced).unwrap());
    let stripped = attach_build_info(&replaced, &[]).unwrap();
    assert_eq!(stripped, base, "stripping build-info restores the image");
}

#[test]
fn build_info_attaches_on_a_metadata_free_file() {
    let base = build_image();
    let info = b"{\"builder\":\"x\"}";
    let with = attach_build_info(&base, info).unwrap();
    let h = Header::from_bytes(&with).unwrap();
    assert_eq!(h.build_info_offset, HEADER_LEN as u64);
    assert_eq!(h.metadata_len, 0);
    assert_eq!(read_build_info(&with).unwrap().unwrap(), info);
    assert!(verify(&with).unwrap());
    assert_eq!(h.content_hash, Header::from_bytes(&base).unwrap().content_hash);
    Rete::open(&with).unwrap();
}

#[test]
fn a_plan_rebuilds_exactly_what_the_in_memory_splice_produces() {
    let card = br#"{"title":"My Dataset"}"#;
    let base = build_with_metadata(card);
    let base_hash = Header::from_bytes(&base).unwrap().content_hash;
    for start in [base.clone(), attach_build_info(&base, b"{\"a\":1}").unwrap()] {
        for info in [
            br#"{"builder":"rete-cli 0.3.2","query_costs":{}}"#.as_slice(),
            b"{}".as_slice(),
            b"".as_slice(),
        ] {
            let plan = plan_build_info(&start, start.len() as u64, info.len() as u64).unwrap();
            let mut streamed = Vec::new();
            streamed.extend_from_slice(&plan.header);
            streamed.extend_from_slice(&start[HEADER_LEN..plan.insert as usize]);
            streamed.extend_from_slice(info);
            streamed.extend_from_slice(&start[plan.tail_start as usize..]);
            assert_eq!(streamed.len() as u64, plan.new_len);
            assert_eq!(streamed, attach_build_info(&start, info).unwrap());
            assert!(verify(&streamed).unwrap());
            let h = Header::from_bytes(&streamed).unwrap();
            assert_eq!(h.content_hash, base_hash);
            let rete = Rete::open(&streamed).unwrap();
            assert_eq!(rete.metadata(), Some(card.as_slice()));
            assert_eq!(rete.query(Some("Bob"), Some("knows"), Some("Carol")).len(), 1);
        }
    }
}

#[test]
fn a_plan_refuses_a_header_that_overruns_the_file() {
    let base = build_with_metadata(br#"{"title":"x"}"#);
    assert!(plan_build_info(&base, 8, 16).is_err());
    assert!(plan_build_info(&base[..HEADER_LEN], base.len() as u64, 16).is_ok());
}

#[test]
fn query_quads_tags_every_graph() {
    let dict = Dictionary {
        shared: Vec::new(),
        subjects: vec![b("Alice")],
        objects: vec![b("Bob"), b("Dave")],
        predicates: vec![b("knows")],
    };
    let def = GraphIndex::build(&vec![dict.encode("Alice", "knows", "Bob").unwrap()], PERMS_ALL);
    let g1 = GraphIndex::build(&vec![dict.encode("Alice", "knows", "Dave").unwrap()], PERMS_ALL);
    let named = vec![(b("http://ex/g1"), g1)];
    let bytes = write_dataset(&dict, &def, &named, true, &[], 0);
    let rete = Rete::open(&bytes).unwrap();
    let quads = rete.query_quads(Some("Alice"), Some("knows"), None);
    assert_eq!(quads.len(), 2);
    assert_eq!(quads[0], ((b("Alice"), b("knows"), b("Bob")), None));
    assert_eq!(quads[1], ((b("Alice"), b("knows"), b("Dave")), Some(b("http://ex/g1"))));
    assert!(rete.query_quads(Some("Nobody"), None, None).is_empty());
}

#[test]
fn query_patterns_resolve_to_terms() {
    let rete = Rete::open(&build_image()).unwrap();
    assert_eq!(rete.query(None, None, None).len(), 3);
    let mut alice = rete.query(Some("Alice"), None, None);
    alice.sort();
    assert_eq!(alice, vec![(b("Alice"), b("age"), b("30")), (b("Alice"), b("knows"), b("Bob"))]);
    assert_eq!(rete.query(None, Some("knows"), None).len(), 2);
    assert_eq!(rete.query(Some("Bob"), Some("knows"), Some("Carol")), vec![(b("Bob"), b("knows"), b("Carol"))]);
    assert!(rete.query(Some("Nobody"), None, None).is_empty());
    assert!(rete.query(None, Some("likes"), None).is_empty());
}
