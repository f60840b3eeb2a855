use rete_core::coalesce::coalesce_ranges;
use rete_core::image::ByteRange;

fn br(offset: u64, len: u64) -> ByteRange {
    ByteRange { offset, len }
}

#[test]
fn close_ranges_share_a_span_and_far_ones_split() {
    let ranges = vec![br(0, 10), br(12, 5), br(100, 10), br(112, 3)];
    let (spans, span_of) = coalesce_ranges(&ranges, 8).unwrap();
    assert_eq!(spans, vec![br(0, 17), br(100, 15)]);
    assert_eq!(span_of, vec![0, 0, 1, 1]);
    let (spans, span_of) = coalesce_ranges(&ranges, 4096).unwrap();
    assert_eq!(spans, vec![br(0, 115)]);
    assert_eq!(span_of, vec![0, 0, 0, 0]);
    let (spans, span_of) = coalesce_ranges(&ranges, 0).unwrap();
    assert_eq!(spans.len(), 4);
    assert_eq!(span_of, vec![0, 1, 2, 3]);
}

#[test]
fn overlapping_or_overflowing_ranges_are_refused() {
    assert_eq!(coalesce_ranges(&vec![br(0, 10), br(5, 2)], 8), None);
    assert_eq!(coalesce_ranges(&vec![br(u64::MAX, 2)], 8), None);
    assert_eq!(coalesce_ranges(&Vec::new(), 8), Some((Vec::new(), Vec::new())));
}
