//! The byte layout of an opened file, for display: labelled regions sorted
//! by offset.
use vstd::prelude::*;

use crate::header::HEADER_LEN;
use crate::image::ByteRange;
use crate::provenance::{decimal_digits, perm_name, push_decimal, IndexPermutation};
use crate::rete::Rete;
use vstd::string::StringSliceAdditionalSpecFns;

verus! {

/// One labelled byte region of a file image. `kind` is a stable tag:
/// `header`, `metadata`, `dictionary`, `directory`, `tile`, `pyramid`,
/// `named-graphs`; `label` is ASCII text for a reader.
#[derive(Debug)]
pub struct LayoutSegment {
    pub kind: &'static str,
    pub label: Vec<u8>,
    pub offset: u64,
    pub len: u64,
}

/// A segment as plain values.
pub type SegmentView = (&'static str, Seq<u8>, u64, u64);

/// A segment as plain values.
pub open spec fn segment_view(s: LayoutSegment) -> SegmentView {
    (s.kind, s.label@, s.offset, s.len)
}

/// Where `x` goes among segments sorted by offset: after every segment at
/// or before its offset.
pub open spec fn insert_pos(s: Seq<SegmentView>, x: SegmentView) -> int
    decreases s.len(),
{
    if s.len() == 0 || s.last().2 <= x.2 {
        s.len() as int
    } else {
        insert_pos(s.drop_last(), x)
    }
}

/// The segments sorted by offset, segments at one offset keeping their
/// order.
pub open spec fn sorted_segments(s: Seq<SegmentView>) -> Seq<SegmentView>
    decreases s.len(),
{
    if s.len() == 0 {
        s
    } else {
        let t = sorted_segments(s.drop_last());
        t.insert(insert_pos(t, s.last()), s.last())
    }
}

/// Segments in ascending offset order.
pub open spec fn by_offset(s: Seq<SegmentView>) -> bool {
    forall|i: int, j: int| 0 <= i <= j < s.len() ==> #[trigger] s[i].2 <= #[trigger] s[j].2
}

/// Where an insertion lands, and that it keeps segments in order.
pub proof fn lemma_insert_pos(s: Seq<SegmentView>, x: SegmentView)
    requires
        by_offset(s),
    ensures
        0 <= insert_pos(s, x) <= s.len(),
        forall|i: int| 0 <= i < insert_pos(s, x) ==> #[trigger] s[i].2 <= x.2,
        forall|i: int| insert_pos(s, x) <= i < s.len() ==> #[trigger] s[i].2 > x.2,
        by_offset(s.insert(insert_pos(s, x), x)),
    decreases s.len(),
{
    let p = insert_pos(s, x);
    if s.len() > 0 && s.last().2 > x.2 {
        let t = s.drop_last();
        assert(by_offset(t)) by {
            assert forall|i: int, j: int| 0 <= i <= j < t.len() implies #[trigger] t[i].2 <= #[trigger] t[j].2 by {
                assert(t[i] == s[i] && t[j] == s[j]);
            }
        }
        lemma_insert_pos(t, x);
        assert forall|i: int| 0 <= i < p implies #[trigger] s[i].2 <= x.2 by {
            assert(t[i] == s[i]);
        }
        assert forall|i: int| p <= i < s.len() implies #[trigger] s[i].2 > x.2 by {
            if i < s.len() - 1 {
                assert(t[i] == s[i]);
            }
        }
    } else if s.len() > 0 {
        assert forall|i: int| 0 <= i < p implies #[trigger] s[i].2 <= x.2 by {
            assert(s[i].2 <= s[s.len() - 1].2);
        }
    }
    let u = s.insert(p, x);
    assert forall|i: int, j: int| 0 <= i <= j < u.len() implies #[trigger] u[i].2 <= #[trigger] u[j].2 by {
        if i < p && j < p {
            assert(u[i] == s[i] && u[j] == s[j]);
        } else if i < p && j == p {
            assert(u[i] == s[i]);
            assert(s[i].2 <= x.2);
        } else if i < p {
            assert(u[i] == s[i] && u[j] == s[j - 1]);
            assert(s[i].2 <= s[j - 1].2);
        } else if i == p && j > p {
            assert(u[j] == s[j - 1]);
            assert(s[j - 1].2 > x.2);
        } else if i == p {
        } else {
            assert(u[i] == s[i - 1] && u[j] == s[j - 1]);
            assert(s[i - 1].2 <= s[j - 1].2);
        }
    }
}

/// Sorting leaves the segments in ascending offset order.
pub proof fn lemma_sorted_segments(s: Seq<SegmentView>)
    ensures
        by_offset(sorted_segments(s)),
        sorted_segments(s).len() == s.len(),
    decreases s.len(),
{
    if s.len() > 0 {
        lemma_sorted_segments(s.drop_last());
        lemma_insert_pos(sorted_segments(s.drop_last()), s.last());
    }
}

/// The label of a tile: permutation, position and leading ids.
pub open spec fn tile_segment_label(k: int, i: nat, min_a: u32, max_a: u32) -> Seq<u8> {
    perm_name(k) + " tile ".spec_bytes() + decimal_digits(i) + " (leading ids ".spec_bytes() + decimal_digits(
        min_a as nat,
    ) + "..".spec_bytes() + decimal_digits(max_a as nat) + ")".spec_bytes()
}

/// The tile segments of slot `k`, from tile `i` on.
pub open spec fn tile_segments(k: int, tiles: Seq<(u32, u32, ByteRange)>, i: int) -> Seq<SegmentView>
    decreases tiles.len() - i,
{
    if i < 0 || i >= tiles.len() {
        seq![]
    } else {
        seq![("tile", tile_segment_label(k, i as nat, tiles[i].0, tiles[i].1), tiles[i].2.offset, tiles[i].2.len)]
            + tile_segments(k, tiles, i + 1)
    }
}

/// The segments of slot `k`: its directory, when it has one before its
/// first tile, then its tiles; nothing for an empty slot.
pub open spec fn slot_segments(sec: ByteRange, k: int, tiles: Seq<(u32, u32, ByteRange)>) -> Seq<SegmentView> {
    if sec.len == 0 {
        seq![]
    } else {
        let first_tile: int = if tiles.len() > 0 {
            tiles[0].2.offset as int
        } else {
            sec.offset + sec.len
        };
        (if first_tile > sec.offset {
            seq![("directory", perm_name(k) + " tile directory".spec_bytes(), sec.offset, (first_tile - sec.offset) as u64)]
        } else {
            seq![]
        }) + tile_segments(k, tiles, 0)
    }
}

/// The segments of slots `0..k`.
pub open spec fn slots_segments(r: Rete, k: int) -> Seq<SegmentView>
    decreases k,
{
    if k <= 0 {
        seq![]
    } else {
        slots_segments(r, k - 1) + slot_segments(r.index_section_ranges@[k - 1], k - 1, r.tile_ranges@[k - 1]@)
    }
}

/// The segments of an opened file, before sorting: header, metadata when
/// present, dictionary, each slot's directory and tiles, the pyramid and the
/// named graphs when present.
pub open spec fn layout_segments(r: Rete) -> Seq<SegmentView> {
    let h = r.header;
    seq![("header", "header (fixed ".spec_bytes() + decimal_digits(HEADER_LEN as nat) + " bytes)".spec_bytes(), 0u64, HEADER_LEN as u64)]
        + (if h.metadata_len > 0 {
        seq![("metadata", "metadata (dataset card)".spec_bytes(), h.metadata_offset, h.metadata_len)]
    } else {
        seq![]
    }) + seq![("dictionary", "dictionary (4 front-coded term sections)".spec_bytes(), h.dictionary_offset, h.dictionary_len)]
        + slots_segments(r, 6) + (if h.pyramid_meta_len > 0 {
        seq![("pyramid", "pyramid summary (communities + superedges)".spec_bytes(), h.pyramid_meta_offset, h.pyramid_meta_len)]
    } else {
        seq![]
    }) + (if h.named_graphs_len > 0 {
        seq![("named-graphs", "named graphs (".spec_bytes() + decimal_digits(r.named_graphs@.len()) + ")".spec_bytes(), h.named_graphs_offset, h.named_graphs_len)]
    } else {
        seq![]
    })
}

/// Insert a segment after every segment at or before its offset.
fn insert_segment(out: &mut Vec<LayoutSegment>, seg: LayoutSegment)
    ensures
        final(out)@.map_values(|x: LayoutSegment| segment_view(x)) == old(out)@.map_values(
            |x: LayoutSegment| segment_view(x),
        ).insert(insert_pos(old(out)@.map_values(|x: LayoutSegment| segment_view(x)), segment_view(seg)), segment_view(seg)),
{
    let ghost s = out@.map_values(|x: LayoutSegment| segment_view(x));
    let ghost x = segment_view(seg);
    let mut p = out.len();
    proof {
        assert(s.take(p as int) =~= s);
    }
    while p > 0 && out[p - 1].offset > seg.offset
        invariant
            p <= out@.len(),
            s == out@.map_values(|x: LayoutSegment| segment_view(x)),
            x == segment_view(seg),
            insert_pos(s, x) == insert_pos(s.take(p as int), x),
        decreases p,
    {
        proof {
            assert(s.take(p as int).drop_last() =~= s.take(p - 1));
            assert(s.take(p as int).last() == s[p - 1]);
        }
        p = p - 1;
    }
    proof {
        if p > 0 {
            assert(s.take(p as int).last() == s[p - 1]);
        }
        assert(insert_pos(s.take(p as int), x) == p);
    }
    out.insert(p, seg);
    proof {
        assert(out@.map_values(|x: LayoutSegment| segment_view(x)) =~= s.insert(p as int, x));
    }
}

/// Append the ASCII bytes of a literal.
fn push_lit(out: &mut Vec<u8>, s: &str)
    ensures
        final(out)@ == old(out)@ + s.spec_bytes(),
{
    out.extend_from_slice(s.as_bytes());
}

/// A labelled segment.
fn segment(kind: &'static str, label: Vec<u8>, offset: u64, len: u64) -> (r: LayoutSegment)
    ensures
        segment_view(r) == (kind, label@, offset, len),
{
    LayoutSegment { kind, label, offset, len }
}

impl Rete {
    /// The file's byte layout, for display: header, metadata, dictionary,
    /// each permutation's tile directory and tiles, pyramid summary and
    /// named graphs, sorted by offset (regions at one offset keep this
    /// order). Bytes no segment covers are container framing.
    #[verifier::rlimit(50)]
    #[verifier::spinoff_prover]
    pub fn file_layout(&self) -> (r: Vec<LayoutSegment>)
        requires
            self.index_section_ranges@.len() == 6,
            self.tile_ranges@.len() == 6,
            forall|k: int|
                0 <= k < 6 ==> #[trigger] self.index_section_ranges@[k].offset + self.index_section_ranges@[k].len
                    <= u64::MAX,
        ensures
            r@.map_values(|x: LayoutSegment| segment_view(x)) == sorted_segments(layout_segments(*self)),
            by_offset(r@.map_values(|x: LayoutSegment| segment_view(x))),
    {
        let h = &self.header;
        let mut segs: Vec<LayoutSegment> = Vec::new();
        let mut label: Vec<u8> = Vec::new();
        push_lit(&mut label, "header (fixed ");
        push_decimal(&mut label, HEADER_LEN as u64);
        push_lit(&mut label, " bytes)");
        segs.push(segment("header", label, 0, HEADER_LEN as u64));
        let ghost hv: SegmentView = ("header", "header (fixed ".spec_bytes() + decimal_digits(HEADER_LEN as nat) + " bytes)".spec_bytes(), 0u64, HEADER_LEN as u64);
        proof {
            assert(segs@.map_values(|x: LayoutSegment| segment_view(x)) =~= seq![hv]);
        }
        if h.metadata_len > 0 {
            let mut label: Vec<u8> = Vec::new();
            push_lit(&mut label, "metadata (dataset card)");
            segs.push(segment("metadata", label, h.metadata_offset, h.metadata_len));
        }
        let mut label: Vec<u8> = Vec::new();
        push_lit(&mut label, "dictionary (4 front-coded term sections)");
        let ghost pre_dict = segs@.map_values(|x: LayoutSegment| segment_view(x));
        segs.push(segment("dictionary", label, h.dictionary_offset, h.dictionary_len));
        let ghost head = segs@.map_values(|x: LayoutSegment| segment_view(x));
        proof {
            assert(pre_dict =~= seq![hv] + (if h.metadata_len > 0 {
                seq![("metadata", "metadata (dataset card)".spec_bytes(), h.metadata_offset, h.metadata_len)]
            } else {
                Seq::<SegmentView>::empty()
            }));
            assert(head =~= pre_dict.push(("dictionary", "dictionary (4 front-coded term sections)".spec_bytes(), h.dictionary_offset, h.dictionary_len)));
        }
        let mut k: usize = 0;
        while k < 6
            invariant
                k <= 6,
                self.index_section_ranges@.len() == 6,
                self.tile_ranges@.len() == 6,
                forall|j: int|
                    0 <= j < 6 ==> #[trigger] self.index_section_ranges@[j].offset + self.index_section_ranges@[j].len
                        <= u64::MAX,
                segs@.map_values(|x: LayoutSegment| segment_view(x)) == head + slots_segments(*self, k as int),
            decreases 6 - k,
        {
            let ghost before = segs@.map_values(|x: LayoutSegment| segment_view(x));
            let sec = self.index_section_ranges[k];
            let tiles = &self.tile_ranges[k];
            let perm = match IndexPermutation::from_section_index(k) {
                Some(p) => p,
                None => {
                    k = k + 1;
                    continue;
                },
            };
            if sec.len != 0 {
                let first_tile: u64 = if tiles.len() > 0 {
                    tiles[0].2.offset
                } else {
                    sec.offset + sec.len
                };
                if first_tile > sec.offset {
                    let mut label = perm.name_bytes();
                    push_lit(&mut label, " tile directory");
                    segs.push(segment("directory", label, sec.offset, first_tile - sec.offset));
                }
                let ghost mid = segs@.map_values(|x: LayoutSegment| segment_view(x));
                let n = tiles.len();
                let mut i: usize = 0;
                proof {
                    assert(mid == before + (if first_tile > sec.offset {
                        seq![("directory", perm_name(k as int) + " tile directory".spec_bytes(), sec.offset, (first_tile - sec.offset) as u64)]
                    } else {
                        seq![]
                    }));
                    assert(mid =~= mid + Seq::<SegmentView>::empty());
                }
                while i < n
                    invariant
                        n == tiles@.len(),
                        i <= n,
                        k < 6,
                        perm_name(perm_slot_of(perm)) == perm_name(k as int),
                        segs@.map_values(|x: LayoutSegment| segment_view(x)) + tile_segments(k as int, tiles@, i as int)
                            == mid + tile_segments(k as int, tiles@, 0),
                    decreases n - i,
                {
                    let (lo, hi, r) = tiles[i];
                    let mut label = perm.name_bytes();
                    push_lit(&mut label, " tile ");
                    push_decimal(&mut label, i as u64);
                    push_lit(&mut label, " (leading ids ");
                    push_decimal(&mut label, lo as u64);
                    push_lit(&mut label, "..");
                    push_decimal(&mut label, hi as u64);
                    push_lit(&mut label, ")");
                    let ghost pre = segs@.map_values(|x: LayoutSegment| segment_view(x));
                    let seg = segment("tile", label, r.offset, r.len);
                    segs.push(seg);
                    proof {
                        assert(segment_view(seg) == ("tile", tile_segment_label(k as int, i as nat, lo, hi), r.offset, r.len));
                        assert(segs@.map_values(|x: LayoutSegment| segment_view(x)) =~= pre.push(segment_view(seg)));
                        assert(tile_segments(k as int, tiles@, i as int) =~= seq![segment_view(seg)] + tile_segments(
                            k as int,
                            tiles@,
                            i + 1,
                        ));
                    }
                    i = i + 1;
                }
                proof {
                    assert(tile_segments(k as int, tiles@, n as int) =~= Seq::<SegmentView>::empty());
                    assert(segs@.map_values(|x: LayoutSegment| segment_view(x)) + Seq::<SegmentView>::empty()
                        =~= segs@.map_values(|x: LayoutSegment| segment_view(x)));
                }
            }
            proof {
                assert(slot_segments(sec, k as int, tiles@) == slot_segments(
                    self.index_section_ranges@[k as int],
                    k as int,
                    self.tile_ranges@[k as int]@,
                ));
                assert(slots_segments(*self, k + 1) == slots_segments(*self, k as int) + slot_segments(
                    self.index_section_ranges@[k as int],
                    k as int,
                    self.tile_ranges@[k as int]@,
                ));
                assert(segs@.map_values(|x: LayoutSegment| segment_view(x)) =~= head + slots_segments(*self, k + 1));
            }
            k = k + 1;
        }
        let ghost after_slots = segs@.map_values(|x: LayoutSegment| segment_view(x));
        if h.pyramid_meta_len > 0 {
            let mut label: Vec<u8> = Vec::new();
            push_lit(&mut label, "pyramid summary (communities + superedges)");
            segs.push(segment("pyramid", label, h.pyramid_meta_offset, h.pyramid_meta_len));
        }
        let ghost after_pyr = segs@.map_values(|x: LayoutSegment| segment_view(x));
        proof {
            assert(after_pyr =~= after_slots + (if h.pyramid_meta_len > 0 {
                seq![("pyramid", "pyramid summary (communities + superedges)".spec_bytes(), h.pyramid_meta_offset, h.pyramid_meta_len)]
            } else {
                Seq::<SegmentView>::empty()
            }));
        }
        if h.named_graphs_len > 0 {
            let mut label: Vec<u8> = Vec::new();
            push_lit(&mut label, "named graphs (");
            push_decimal(&mut label, self.named_graphs.len() as u64);
            push_lit(&mut label, ")");
            segs.push(segment("named-graphs", label, h.named_graphs_offset, h.named_graphs_len));
        }
        let ghost all = segs@.map_values(|x: LayoutSegment| segment_view(x));
        proof {
            assert(all =~= after_pyr + (if h.named_graphs_len > 0 {
                seq![("named-graphs", "named graphs (".spec_bytes() + decimal_digits(self.named_graphs@.len()) + ")".spec_bytes(), h.named_graphs_offset, h.named_graphs_len)]
            } else {
                Seq::<SegmentView>::empty()
            }));
            assert(all =~= layout_segments(*self));
        }
        let mut out: Vec<LayoutSegment> = Vec::new();
        let n = segs.len();
        let mut i: usize = 0;
        let mut rest = segs;
        proof {
            assert(all.take(0) =~= Seq::<SegmentView>::empty());
        }
        // consumed front to back: `rest` shrinks from the back, so take from a
        // reversed copy
        let mut rev: Vec<LayoutSegment> = Vec::new();
        while rest.len() > 0
            invariant
                rest@.len() + rev@.len() == n,
                n == all.len(),
                all == rest@.map_values(|x: LayoutSegment| segment_view(x)) + rev@.map_values(|x: LayoutSegment| segment_view(x)).reverse(),
            decreases rest@.len(),
        {
            let ghost r0 = rest@.map_values(|x: LayoutSegment| segment_view(x));
            let ghost v0 = rev@.map_values(|x: LayoutSegment| segment_view(x));
            let x = rest.pop().unwrap();
            rev.push(x);
            proof {
                assert(rest@.map_values(|x: LayoutSegment| segment_view(x)) =~= r0.drop_last());
                assert(rev@.map_values(|x: LayoutSegment| segment_view(x)) =~= v0.push(segment_view(x)));
                assert(r0 =~= r0.drop_last().push(segment_view(x)));
                assert(v0.push(segment_view(x)).reverse() =~= seq![segment_view(x)] + v0.reverse());
            }
        }
        proof {
            assert(rev@.map_values(|x: LayoutSegment| segment_view(x)).reverse() =~= all);
        }
        while i < n
            invariant
                n == all.len(),
                i <= n,
                rev@.len() == n - i,
                rev@.map_values(|x: LayoutSegment| segment_view(x)).reverse() == all.skip(i as int),
                out@.map_values(|x: LayoutSegment| segment_view(x)) == sorted_segments(all.take(i as int)),
            decreases n - i,
        {
            let ghost v0 = rev@.map_values(|x: LayoutSegment| segment_view(x));
            let x = rev.pop().unwrap();
            proof {
                assert(rev@.map_values(|x: LayoutSegment| segment_view(x)) =~= v0.drop_last());
                assert(v0.reverse()[0] == segment_view(x));
                assert(all.skip(i as int)[0] == all[i as int]);
                assert(v0.drop_last().reverse() =~= v0.reverse().drop_first());
                assert(all.skip(i + 1) =~= all.skip(i as int).drop_first());
                assert(all.take(i + 1).drop_last() =~= all.take(i as int));
                assert(all.take(i + 1).last() == all[i as int]);
            }
            insert_segment(&mut out, x);
            i = i + 1;
        }
        proof {
            assert(all.take(n as int) =~= all);
            lemma_sorted_segments(all);
        }
        out
    }
}

/// The slot of a permutation, as an integer.
pub open spec fn perm_slot_of(p: IndexPermutation) -> int {
    crate::provenance::perm_slot(p)
}

} // verus!
