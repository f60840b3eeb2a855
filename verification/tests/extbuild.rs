use rete_core::extbuild::{
    common_prefix_len, count_to_usize, count_to_usize_with_limit, group_graph_quads, merge_chunk_terms, next_build_action, read_restart_term, BuildAction, BuildEvent, BuildState, ExtBuildError,
    ExternalBuildOptions, ALL_PERMS, DEFAULT_MEMORY_BUDGET,
};

#[test]
fn external_build_counts_reject_target_width_overflow() {
    assert_eq!(
        count_to_usize_with_limit(u32::MAX as u64, u32::MAX as usize, "statements").unwrap(),
        u32::MAX as usize
    );
    assert!(matches!(
        count_to_usize_with_limit(u32::MAX as u64 + 1, u32::MAX as usize, "statements"),
        Err(ExtBuildError::CountOverflow("statements"))
    ));
}

#[test]
fn count_to_usize_accepts_what_fits() {
    assert_eq!(count_to_usize(7, "terms").unwrap(), 7);
}

#[test]
fn default_options_use_every_permutation_and_the_default_budget() {
    let o = ExternalBuildOptions::default();
    assert_eq!(o.memory_budget, DEFAULT_MEMORY_BUDGET);
    assert_eq!(o.memory_budget, 4 * 1024 * 1024 * 1024);
    assert_eq!(o.perms, ALL_PERMS);
    assert!(o.tmp_dir.is_none());
    assert!(o.build_info.is_empty());
}

#[test]
fn common_prefix_len_counts_shared_bytes() {
    assert_eq!(common_prefix_len("<http://ex/a>", "<http://ex/b>"), 11);
    assert_eq!(common_prefix_len("abc", "abc"), 3);
    assert_eq!(common_prefix_len("", "abc"), 0);
    assert_eq!(common_prefix_len("xbc", "abc"), 0);
}

#[test]
fn restart_term_reads_only_unshared_entries() {
    assert_eq!(read_restart_term(&[0, 3, b'a', b'b', b'c', 9]), Some(b"abc".to_vec()));
    assert_eq!(read_restart_term(&[1, 3, b'a', b'b', b'c']), None);
    assert_eq!(read_restart_term(&[0, 4, b'a', b'b', b'c']), None);
}

#[test]
fn grouping_quads_gives_one_run_per_dense_graph() {
    let run = vec![(1u32, 1u32, 1u32, 1u32), (1, 1, 1, 1), (1, 2, 2, 2), (2, 3, 3, 3)];
    let groups = group_graph_quads(&run).unwrap();
    assert_eq!(groups, vec![(1u32, vec![(1u32, 1u32, 1u32), (2, 2, 2)]), (2, vec![(3, 3, 3)])]);
    assert!(group_graph_quads(&Vec::new()).unwrap().is_empty());
}

#[test]
fn grouping_quads_refuses_a_gap_in_graph_ordinals() {
    let gap = vec![(1u32, 1u32, 1u32, 1u32), (3, 2, 2, 2)];
    assert!(matches!(
        group_graph_quads(&gap),
        Err(ExtBuildError::Internal("graph ordinals are not dense and ascending"))
    ));
    let late_start = vec![(2u32, 1u32, 1u32, 1u32)];
    assert!(matches!(
        group_graph_quads(&late_start),
        Err(ExtBuildError::Internal("graph ordinals are not dense and ascending"))
    ));
}

#[test]
fn merging_chunk_terms_sorts_dedups_and_remaps() {
    let a: Vec<Vec<u8>> = vec![b"<a>".to_vec(), b"<c>".to_vec(), b"<d>".to_vec()];
    let b: Vec<Vec<u8>> = vec![b"<b>".to_vec(), b"<c>".to_vec()];
    let empty: Vec<Vec<u8>> = Vec::new();
    let (merged, remaps) = merge_chunk_terms(&vec![a, empty, b]);
    assert_eq!(
        merged,
        vec![b"<a>".to_vec(), b"<b>".to_vec(), b"<c>".to_vec(), b"<d>".to_vec()]
    );
    assert_eq!(remaps, vec![vec![0, 2, 3], vec![], vec![1, 2]]);
}

#[test]
fn merging_no_chunks_gives_nothing() {
    let (merged, remaps) = merge_chunk_terms(&Vec::new());
    assert!(merged.is_empty());
    assert!(remaps.is_empty());
}

#[test]
fn chunk_accounting_charges_names_once_and_seals_at_the_budget() {
    let start = BuildState { acc_bytes: 0, chunk_budget: 700, graphs: Vec::new() };
    let plain = BuildEvent { s_len: 10, p_len: 10, o_len: 10, graph: None };
    let (s1, a1) = next_build_action(start, &plain);
    assert_eq!(a1, BuildAction { graph_id: None, seal: false });
    assert_eq!(s1.acc_bytes, 126);
    let named = BuildEvent { s_len: 10, p_len: 10, o_len: 10, graph: Some(b"<g>".to_vec()) };
    let (s2, a2) = next_build_action(s1, &named);
    assert_eq!(a2, BuildAction { graph_id: Some(1), seal: false });
    assert_eq!(s2.acc_bytes, 126 + 126 + 3 + 96);
    assert_eq!(s2.graphs, vec![b"<g>".to_vec()]);
    let (s3, a3) = next_build_action(s2, &named);
    assert_eq!(a3, BuildAction { graph_id: Some(1), seal: false });
    assert_eq!(s3.acc_bytes, 126 + 126 + 3 + 96 + 126);
    let other = BuildEvent { s_len: 10, p_len: 10, o_len: 10, graph: Some(b"<h>".to_vec()) };
    let (s4, a4) = next_build_action(s3, &other);
    assert_eq!(a4, BuildAction { graph_id: Some(2), seal: true });
    assert_eq!(s4.acc_bytes, 0);
    assert!(s4.graphs.is_empty());
    assert_eq!(s4.chunk_budget, 700);
}
