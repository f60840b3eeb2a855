//! Planning coalesced range reads: neighbouring byte ranges whose gap is
//! small enough are fetched as one span.
use vstd::prelude::*;

use crate::image::ByteRange;

verus! {

/// The end of a range, as an integer.
pub open spec fn range_end(r: ByteRange) -> int {
    r.offset + r.len
}

/// Every range's end fits in `u64`, and each range starts at or after the
/// end of the one before it.
pub open spec fn ascending_disjoint(rs: Seq<ByteRange>) -> bool {
    &&& forall|k: int| 0 <= k < rs.len() ==> range_end(#[trigger] rs[k]) <= u64::MAX
    &&& forall|k: int| 0 < k < rs.len() ==> range_end(rs[k - 1]) <= (#[trigger] rs[k]).offset
}

/// The gap between range `k` and the one before it.
pub open spec fn gap_before(rs: Seq<ByteRange>, k: int) -> int {
    rs[k].offset - range_end(rs[k - 1])
}

/// `spans` and `span_of` are the coalescing of `rs` with gap limit `gap`:
/// range 0 opens span 0, each later range joins the span of the one before
/// it when its gap is at most `gap` and opens the next span otherwise, and
/// each span runs from the start of its first range to the end of its last.
pub open spec fn coalesced(rs: Seq<ByteRange>, gap: u64, spans: Seq<ByteRange>, span_of: Seq<usize>) -> bool {
    &&& span_of.len() == rs.len()
    &&& rs.len() > 0 ==> span_of[0] == 0
    &&& forall|k: int|
        0 < k < rs.len() ==> #[trigger] span_of[k] == span_of[k - 1] + (if gap_before(rs, k) > gap {
            1int
        } else {
            0int
        })
    &&& spans.len() == if rs.len() == 0 {
        0
    } else {
        span_of[rs.len() - 1] + 1
    }
    &&& forall|k: int|
        0 <= k < rs.len() ==> {
            let s = spans[span_of[k] as int];
            &&& span_of[k] < spans.len()
            &&& s.offset <= (#[trigger] rs[k]).offset
            &&& range_end(rs[k]) <= range_end(s)
            &&& (k == 0 || span_of[k - 1] != span_of[k]) ==> s.offset == rs[k].offset
            &&& (k == rs.len() - 1 || span_of[k + 1] != span_of[k]) ==> range_end(s) == range_end(rs[k])
        }
}

/// Plan the reads of ascending, disjoint byte ranges: merge each range into
/// the span before it when the gap between them is at most `static_gap`.
/// Returns the spans and, for each range, the span holding it; `None` when
/// the ranges are not ascending and disjoint or an end overflows.
pub fn coalesce_ranges(ranges: &Vec<ByteRange>, static_gap: u64) -> (r: Option<(Vec<ByteRange>, Vec<usize>)>)
    ensures
        r is Some <==> ascending_disjoint(ranges@),
        r matches Some((spans, span_of)) ==> coalesced(ranges@, static_gap, spans@, span_of@),
{
    let n = ranges.len();
    let mut spans: Vec<ByteRange> = Vec::new();
    let mut span_of: Vec<usize> = Vec::new();
    if n == 0 {
        return Some((spans, span_of));
    }
    if ranges[0].offset > u64::MAX - ranges[0].len {
        return None;
    }
    let mut cur_start: u64 = ranges[0].offset;
    let mut cur_end: u64 = ranges[0].offset + ranges[0].len;
    span_of.push(0);
    let ghost mut first: int = 0;
    let mut k: usize = 1;
    while k < n
        invariant
            n == ranges@.len(),
            1 <= k <= n,
            0 <= first < k,
            span_of@.len() == k,
            span_of@[0] == 0,
            forall|j: int| 0 < j < k ==> range_end(ranges@[j - 1]) <= (#[trigger] ranges@[j]).offset,
            forall|j: int| 0 <= j < k ==> range_end(#[trigger] ranges@[j]) <= u64::MAX,
            forall|j: int|
                0 < j < k ==> #[trigger] span_of@[j] == span_of@[j - 1] + (if gap_before(ranges@, j) > static_gap {
                    1int
                } else {
                    0int
                }),
            span_of@[k - 1] == spans@.len(),
            forall|j: int| first <= j < k ==> #[trigger] span_of@[j] == spans@.len(),
            forall|j: int| 0 <= j < first ==> #[trigger] span_of@[j] < spans@.len(),
            first > 0 ==> span_of@[first - 1] != span_of@[first],
            cur_start == ranges@[first].offset,
            cur_end == range_end(ranges@[k - 1]),
            cur_start <= cur_end,
            forall|j: int| first <= j < k ==> cur_start <= (#[trigger] ranges@[j]).offset && range_end(ranges@[j]) <= cur_end,
            forall|j: int|
                0 <= j < first ==> {
                    let s = spans@[span_of@[j] as int];
                    &&& s.offset <= (#[trigger] ranges@[j]).offset
                    &&& range_end(ranges@[j]) <= range_end(s)
                    &&& (j == 0 || span_of@[j - 1] != span_of@[j]) ==> s.offset == ranges@[j].offset
                    &&& (span_of@[j + 1] != span_of@[j]) ==> range_end(s) == range_end(ranges@[j])
                },
        decreases n - k,
    {
        let r = ranges[k];
        if r.offset < cur_end || r.offset > u64::MAX - r.len {
            return None;
        }
        let next_end = r.offset + r.len;
        let gap = r.offset - cur_end;
        if gap > static_gap {
            let ghost before = spans@;
            spans.push(ByteRange { offset: cur_start, len: cur_end - cur_start });
            proof {
                assert forall|j: int| 0 <= j < k implies {
                    let s = spans@[span_of@[j] as int];
                    &&& s.offset <= (#[trigger] ranges@[j]).offset
                    &&& range_end(ranges@[j]) <= range_end(s)
                    &&& (j == 0 || span_of@[j - 1] != span_of@[j]) ==> s.offset == ranges@[j].offset
                    &&& (j + 1 < k && span_of@[j + 1] != span_of@[j]) ==> range_end(s) == range_end(ranges@[j])
                    &&& j == k - 1 ==> range_end(s) == range_end(ranges@[j])
                } by {
                    if j >= first {
                        assert(spans@[span_of@[j] as int] == ByteRange { offset: cur_start, len: (cur_end - cur_start) as u64 });
                        if j > first {
                            assert(span_of@[j - 1] == span_of@[j]);
                        }
                    } else {
                        assert(spans@[span_of@[j] as int] == before[span_of@[j] as int]);
                    }
                }
            }
            cur_start = r.offset;
            proof {
                first = k as int;
            }
        }
        cur_end = next_end;
        span_of.push(spans.len());
        k = k + 1;
    }
    let ghost before = spans@;
    spans.push(ByteRange { offset: cur_start, len: cur_end - cur_start });
    proof {
        assert forall|j: int| 0 <= j < n implies {
            let s = spans@[span_of@[j] as int];
            &&& span_of@[j] < spans@.len()
            &&& s.offset <= (#[trigger] ranges@[j]).offset
            &&& range_end(ranges@[j]) <= range_end(s)
            &&& (j == 0 || span_of@[j - 1] != span_of@[j]) ==> s.offset == ranges@[j].offset
            &&& (j == n - 1 || span_of@[j + 1] != span_of@[j]) ==> range_end(s) == range_end(ranges@[j])
        } by {
            if j >= first {
                assert(spans@[span_of@[j] as int] == ByteRange { offset: cur_start, len: (cur_end - cur_start) as u64 });
                if j > first {
                    assert(span_of@[j - 1] == span_of@[j]);
                }
                if j < n - 1 {
                    assert(span_of@[j + 1] == span_of@[j]);
                }
            } else {
                assert(spans@[span_of@[j] as int] == before[span_of@[j] as int]);
            }
        }
    }
    Some((spans, span_of))
}

} // verus!
