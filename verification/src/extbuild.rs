//! Small pieces of the memory-bounded external builder that decide rather
//! than move bytes: count conversions that must fit the target's address
//! width, front-coding helpers, and the builder's options.
use vstd::prelude::*;

use crate::dict::bytes_equal;
use crate::schema::{bytes_less, bytes_lt, lemma_bytes_lt};
use crate::varint::{read_uvarint, spec_read_uvarint};
use vstd::string::StringSliceAdditionalSpecFns;

verus! {

/// Errors of the external builder's decision logic.
#[derive(Debug)]
pub enum ExtBuildError {
    /// An internal invariant of the spill files was broken.
    Internal(&'static str),
    /// The named count does not fit this target's `usize`.
    CountOverflow(&'static str),
}

/// Default working-set target: four GiB.
pub const DEFAULT_MEMORY_BUDGET: u64 = 4294967296;

/// Every permutation of the index, as a bit mask over the six orders.
pub const ALL_PERMS: u8 = 63;

/// Options for the external builder.
///
/// The metadata callback is an arbitrary closure and stays with the caller
/// that drives the build.
pub struct ExternalBuildOptions {
    /// Approximate peak-RAM target in bytes.
    pub memory_budget: u64,
    /// Directory for intermediate spill files; `None` means beside the output.
    pub tmp_dir: Option<String>,
    /// Build-conditions payload, written after the metadata and outside the hash.
    pub build_info: Vec<u8>,
    /// Which permutations to sort and write, one bit per order.
    pub perms: u8,
}

impl Default for ExternalBuildOptions {
    fn default() -> (r: Self)
        ensures
            r.memory_budget == DEFAULT_MEMORY_BUDGET,
            r.tmp_dir is None,
            r.build_info@.len() == 0,
            r.perms == ALL_PERMS,
    {
        ExternalBuildOptions {
            memory_budget: DEFAULT_MEMORY_BUDGET,
            tmp_dir: None,
            build_info: Vec::new(),
            perms: ALL_PERMS,
        }
    }
}

/// Convert a 64-bit count to `usize`, refusing anything above `limit`.
pub fn count_to_usize_with_limit(value: u64, limit: usize, name: &'static str) -> (r: Result<
    usize,
    ExtBuildError,
>)
    ensures
        value <= limit ==> r == Ok::<usize, ExtBuildError>(value as usize),
        value > limit ==> r == Err::<usize, ExtBuildError>(ExtBuildError::CountOverflow(name)),
{
    if value > limit as u64 {
        return Err(ExtBuildError::CountOverflow(name));
    }
    Ok(value as usize)
}

/// Convert a 64-bit count to `usize`, refusing what this target cannot hold.
pub fn count_to_usize(value: u64, name: &'static str) -> (r: Result<usize, ExtBuildError>)
    ensures
        value <= usize::MAX ==> r == Ok::<usize, ExtBuildError>(value as usize),
        value > usize::MAX ==> r == Err::<usize, ExtBuildError>(ExtBuildError::CountOverflow(name)),
{
    count_to_usize_with_limit(value, usize::MAX, name)
}

/// Whether `n` bytes are a common prefix of `a` and `b`.
pub open spec fn is_common_prefix(a: Seq<u8>, b: Seq<u8>, n: int) -> bool {
    &&& 0 <= n <= a.len()
    &&& n <= b.len()
    &&& forall|i: int| 0 <= i < n ==> a[i] == b[i]
}

/// Length of the longest common byte prefix of two strings.
pub fn common_prefix_len(a: &str, b: &str) -> (r: usize)
    ensures
        is_common_prefix(a.spec_bytes(), b.spec_bytes(), r as int),
        r == a.spec_bytes().len() || r == b.spec_bytes().len() || a.spec_bytes()[r as int]
            != b.spec_bytes()[r as int],
{
    let x = a.as_bytes();
    let y = b.as_bytes();
    let mut i: usize = 0;
    while i < x.len() && i < y.len() && x[i] == y[i]
        invariant
            x@ == a.spec_bytes(),
            y@ == b.spec_bytes(),
            is_common_prefix(x@, y@, i as int),
        decreases x.len() - i,
    {
        i = i + 1;
    }
    i
}

/// The full term of a front-coded restart entry at the start of `raw`: the
/// shared-prefix length is zero, then the suffix length, then the suffix.
pub open spec fn spec_restart_term(raw: Seq<u8>) -> Option<Seq<u8>> {
    match spec_read_uvarint(raw) {
        Some((shared, n1)) => if shared != 0 {
            None
        } else {
            match spec_read_uvarint(raw.skip(n1 as int)) {
                Some((len, n2)) => if n1 + n2 + len <= raw.len() {
                    Some(raw.subrange((n1 + n2) as int, (n1 + n2 + len) as int))
                } else {
                    None
                },
                None => None,
            }
        },
        None => None,
    }
}

/// Read the full term of the restart entry at the start of `raw`.
pub fn read_restart_term(raw: &[u8]) -> (r: Option<Vec<u8>>)
    ensures
        match spec_restart_term(raw@) {
            Some(t) => r matches Some(v) && v@ == t,
            None => r is None,
        },
{
    let (shared, n1) = match read_uvarint(raw) {
        Some(x) => x,
        None => return None,
    };
    if shared != 0 {
        return None;
    }
    let rest = vstd::slice::slice_subrange(raw, n1, raw.len());
    proof {
        assert(rest@ == raw@.skip(n1 as int));
    }
    let (len, n2) = match read_uvarint(rest) {
        Some(x) => x,
        None => return None,
    };
    let start = n1 + n2;
    if len > (raw.len() - start) as u64 {
        return None;
    }
    let end = start + len as usize;
    Some(vstd::slice::slice_to_vec(vstd::slice::slice_subrange(raw, start, end)))
}

/// A quad of ids: graph ordinal, subject, predicate, object.
pub type IdQuad = (u32, u32, u32, u32);

/// Whether quad `k` of `run` starts a new graph: it is the first, or its
/// graph differs from the one before.
pub open spec fn starts_graph(run: Seq<IdQuad>, k: int) -> bool {
    k == 0 || run[k].0 != run[k - 1].0
}

/// The number of graphs among the first `k` quads.
pub open spec fn graphs_in(run: Seq<IdQuad>, k: int) -> nat
    decreases k,
{
    if k <= 0 {
        0
    } else {
        graphs_in(run, k - 1) + if starts_graph(run, k - 1) { 1nat } else { 0nat }
    }
}

/// The triples of graph `g` among the first `k` quads, in order, each quad
/// that repeats the one before it taken once.
pub open spec fn graph_triples(run: Seq<IdQuad>, g: u32, k: int) -> Seq<(u32, u32, u32)>
    decreases k,
{
    if k <= 0 {
        seq![]
    } else {
        let q = run[k - 1];
        graph_triples(run, g, k - 1) + if q.0 == g && (k == 1 || run[k - 2] != q) {
            seq![(q.1, q.2, q.3)]
        } else {
            seq![]
        }
    }
}

/// Graph ordinals are dense and ascending: each quad's graph is the
/// ordinal, counted from one, of the graph run it belongs to.
pub open spec fn ordinals_dense(run: Seq<IdQuad>) -> bool {
    forall|k: int| 0 <= k < run.len() ==> #[trigger] run[k].0 == graphs_in(run, k + 1)
}

/// Graph ordinals never decrease along the run.
pub open spec fn graphs_ascending(run: Seq<IdQuad>) -> bool {
    forall|i: int, j: int| 0 <= i <= j < run.len() ==> run[i].0 <= run[j].0
}

/// A quad of another graph, or a repeat, adds no triple to graph `g`.
proof fn lemma_graph_triples_skip(run: Seq<IdQuad>, g: u32, i: int)
    requires
        0 <= i < run.len(),
        run[i].0 != g || (i > 0 && run[i - 1] == run[i]),
    ensures
        graph_triples(run, g, i + 1) == graph_triples(run, g, i),
{
    assert(graph_triples(run, g, i + 1) =~= graph_triples(run, g, i));
}

proof fn lemma_graphs_in_le(run: Seq<IdQuad>, k: int)
    requires
        0 <= k,
    ensures
        graphs_in(run, k) <= k,
    decreases k,
{
    if k > 0 {
        lemma_graphs_in_le(run, k - 1);
    }
}

proof fn lemma_graphs_in_mono(run: Seq<IdQuad>, a: int, b: int)
    requires
        0 <= a <= b,
    ensures
        graphs_in(run, a) <= graphs_in(run, b),
    decreases b - a,
{
    if a < b {
        lemma_graphs_in_mono(run, a, b - 1);
    }
}

/// Quads past `k` do not belong to a graph below the one at `k`, so that
/// graph's triples are complete once `k` is passed.
proof fn lemma_graph_triples_stable(run: Seq<IdQuad>, g: u32, k: int, m: int)
    requires
        graphs_ascending(run),
        0 <= k <= m <= run.len(),
        forall|j: int| k <= j < m ==> run[j].0 != g,
    ensures
        graph_triples(run, g, m) == graph_triples(run, g, k),
    decreases m - k,
{
    if k < m {
        lemma_graph_triples_stable(run, g, k, m - 1);
        assert(graph_triples(run, g, m) =~= graph_triples(run, g, m - 1));
    }
}

/// Split a run of quads, in ascending graph order, into one run of triples
/// per graph, dropping a quad that repeats the one before it. The graphs
/// must be numbered densely from one, in order; otherwise the run is
/// refused as an internal error.
#[verifier::rlimit(100)]
#[verifier::spinoff_prover]
pub fn group_graph_quads(run: &Vec<IdQuad>) -> (r: Result<Vec<(u32, Vec<(u32, u32, u32)>)>, ExtBuildError>)
    requires
        graphs_ascending(run@),
        forall|k: int| 0 <= k < run@.len() ==> #[trigger] run@[k].0 >= 1,
    ensures
        ordinals_dense(run@) <==> r is Ok,
        r matches Ok(v) ==> v@.len() == graphs_in(run@, run@.len() as int) && forall|j: int|
            0 <= j < v@.len() ==> (#[trigger] v@[j]).0 == j + 1 && v@[j].1@ == graph_triples(
                run@,
                (j + 1) as u32,
                run@.len() as int,
            ),
        r matches Err(e) ==> e == ExtBuildError::Internal("graph ordinals are not dense and ascending"),
{
    let n = run.len();
    let mut out: Vec<(u32, Vec<(u32, u32, u32)>)> = Vec::new();
    let mut cur_g: u32 = 0;
    let mut cur: Vec<(u32, u32, u32)> = Vec::new();
    let mut i: usize = 0;
    while i < n
        invariant
            n == run@.len(),
            i <= n,
            graphs_ascending(run@),
            forall|k: int| 0 <= k < run@.len() ==> #[trigger] run@[k].0 >= 1,
            i == 0 ==> cur_g == 0 && out@.len() == 0 && cur@.len() == 0,
            i > 0 ==> cur_g == run@[i - 1].0 && out@.len() + 1 == graphs_in(run@, i as int),
            i > 0 ==> cur@ == graph_triples(run@, cur_g, i as int),
            forall|k: int| 0 <= k < i && graphs_in(run@, k + 1) <= out@.len() ==> #[trigger] run@[k].0 == graphs_in(
                run@,
                k + 1,
            ),
            forall|k: int| 0 <= k < i && graphs_in(run@, k + 1) == out@.len() + 1 ==> #[trigger] run@[k].0 == cur_g,
            forall|j: int|
                0 <= j < out@.len() ==> (#[trigger] out@[j]).0 == j + 1 && out@[j].1@ == graph_triples(
                    run@,
                    (j + 1) as u32,
                    i as int,
                ) && (j + 1) < cur_g,
        decreases n - i,
    {
        let q = run[i];
        proof {
            lemma_graphs_in_le(run@, i as int);
        }
        if i > 0 && run[i - 1].0 == q.0 && run[i - 1].1 == q.1 && run[i - 1].2 == q.2 && run[i - 1].3 == q.3 {
            proof {
                assert(run@[i - 1] == q);
                assert(!starts_graph(run@, i as int));
                assert(graphs_in(run@, i + 1) == graphs_in(run@, i as int));
                lemma_graph_triples_skip(run@, cur_g, i as int);
                assert forall|j: int| 0 <= j < out@.len() implies (#[trigger] out@[j]).0 == j + 1 && out@[j].1@
                    == graph_triples(run@, (j + 1) as u32, i + 1) && (j + 1) < cur_g by {
                    lemma_graph_triples_skip(run@, (j + 1) as u32, i as int);
                }
            }
            i = i + 1;
        } else {
            let ghost pre = out@;
            let ghost g0 = cur_g;
            let ghost cur0 = cur@;
            proof {
                if i > 0 {
                    assert(run@[i - 1].0 <= q.0);
                    assert(run@[i - 1] != q);
                }
                assert(starts_graph(run@, i as int) == (i == 0 || g0 != q.0));
            }
            if cur_g != 0 && cur_g != q.0 {
                if cur_g as usize != out.len() + 1 {
                    proof {
                        let k = (i - 1) as int;
                        assert(graphs_in(run@, k + 1) == out@.len() + 1);
                        assert(run@[k].0 != graphs_in(run@, k + 1));
                    }
                    return Err(ExtBuildError::Internal("graph ordinals are not dense and ascending"));
                }
                let done = cur;
                out.push((cur_g, done));
                cur = Vec::new();
            }
            proof {
                assert forall|j: int| 0 <= j < out@.len() implies (#[trigger] out@[j]).0 == j + 1 && out@[j].1@
                    == graph_triples(run@, (j + 1) as u32, i + 1) && (j + 1) < q.0 by {
                    if j < pre.len() {
                        assert(out@[j] == pre[j]);
                        assert(pre[j].1@ == graph_triples(run@, (j + 1) as u32, i as int) && (j + 1) < g0);
                    } else {
                        assert(out@[j].0 == g0 && out@[j].1@ == cur0);
                    }
                    lemma_graph_triples_skip(run@, (j + 1) as u32, i as int);
                }
                assert forall|k: int| 0 <= k < i && graphs_in(run@, k + 1) <= out@.len() implies #[trigger] run@[k].0
                    == graphs_in(run@, k + 1) by {
                    if graphs_in(run@, k + 1) > pre.len() {
                        assert(graphs_in(run@, k + 1) == pre.len() + 1);
                    }
                }
            }
            cur_g = q.0;
            cur.push((q.1, q.2, q.3));
            proof {
                if i == 0 || g0 != q.0 {
                    assert(graph_triples(run@, cur_g, i as int) =~= Seq::<(u32, u32, u32)>::empty()) by {
                        lemma_graph_triples_stable(run@, cur_g, 0, i as int);
                        assert forall|j: int| 0 <= j < i implies run@[j].0 != cur_g by {
                            assert(run@[j].0 <= run@[i - 1].0);
                        }
                        assert(graph_triples(run@, cur_g, 0) =~= Seq::<(u32, u32, u32)>::empty());
                    }
                }
                assert(cur@ =~= graph_triples(run@, cur_g, i + 1));
                assert forall|k: int| 0 <= k < i + 1 && graphs_in(run@, k + 1) == out@.len() + 1 implies #[trigger] run@[k].0
                    == cur_g by {
                    if k < i {
                        lemma_graphs_in_mono(run@, k + 1, i as int);
                        if graphs_in(run@, k + 1) == graphs_in(run@, i as int) {
                            assert(run@[k].0 <= run@[i - 1].0);
                        }
                    }
                }
            }
            i = i + 1;
        }
    }
    proof {
        lemma_graphs_in_le(run@, n as int);
    }
    if cur_g != 0 {
        if cur_g as usize != out.len() + 1 {
            proof {
                let k = (n - 1) as int;
                assert(run@[k].0 != graphs_in(run@, k + 1));
            }
            return Err(ExtBuildError::Internal("graph ordinals are not dense and ascending"));
        }
        let ghost before = out@;
        out.push((cur_g, cur));
        proof {
            assert forall|j: int| 0 <= j < out@.len() implies (#[trigger] out@[j]).0 == j + 1 && out@[j].1@
                == graph_triples(run@, (j + 1) as u32, n as int) by {
                if j < before.len() {
                    assert(out@[j] == before[j]);
                }
            }
        }
    }
    proof {
        assert forall|k: int| 0 <= k < run@.len() implies #[trigger] run@[k].0 == graphs_in(run@, k + 1) by {
            lemma_graphs_in_mono(run@, k + 1, n as int);
        }
    }
    Ok(out)
}

/// What one chunk costs in memory, counted per statement and per graph name
/// first seen in the chunk.
pub const PER_QUAD_OVERHEAD: u64 = 96;

/// The chunker's account of the chunk being filled: the bytes charged so
/// far, the budget at which the chunk is sealed, and the graph names seen in
/// it, in order of first sight (name `j` has local id `j + 1`).
pub struct BuildState {
    pub acc_bytes: u64,
    pub chunk_budget: u64,
    pub graphs: Vec<Vec<u8>>,
}

/// One statement read from the input: the byte lengths of its subject,
/// predicate and object, and its graph name when it is not in the default
/// graph.
pub struct BuildEvent {
    pub s_len: u64,
    pub p_len: u64,
    pub o_len: u64,
    pub graph: Option<Vec<u8>>,
}

/// What to do with the statement: the chunk-local graph id to file it under
/// (none for the default graph), and whether the chunk is sealed after it.
#[derive(PartialEq, Eq, Structural, Debug, Clone, Copy)]
pub struct BuildAction {
    pub graph_id: Option<u32>,
    pub seal: bool,
}

/// No graph name occurs twice.
pub open spec fn names_distinct(gs: Seq<Vec<u8>>) -> bool {
    forall|i: int, j: int| 0 <= i < j < gs.len() ==> (#[trigger] gs[i])@ != (#[trigger] gs[j])@
}

/// The bytes a statement charges before its graph name is looked at.
pub open spec fn quad_charge(e: BuildEvent) -> int {
    e.s_len + e.p_len + e.o_len + PER_QUAD_OVERHEAD
}

/// The index of graph name `g` among `gs`, if it is there.
pub open spec fn name_index(gs: Seq<Vec<u8>>, g: Seq<u8>) -> Option<int> {
    if exists|j: int| 0 <= j < gs.len() && gs[j]@ == g {
        Some(choose|j: int| 0 <= j < gs.len() && gs[j]@ == g)
    } else {
        None
    }
}

/// The bytes charged after the statement and the graph names then known,
/// before any seal: a first-seen graph name is charged once, with one more
/// overhead.
pub open spec fn charged(s: BuildState, e: BuildEvent) -> (int, Seq<Seq<u8>>) {
    let names = s.graphs@.map_values(|v: Vec<u8>| v@);
    match e.graph {
        None => (s.acc_bytes + quad_charge(e), names),
        Some(g) => match name_index(s.graphs@, g@) {
            Some(_) => (s.acc_bytes + quad_charge(e), names),
            None => (s.acc_bytes + quad_charge(e) + g@.len() + PER_QUAD_OVERHEAD, names.push(g@)),
        },
    }
}

/// Account for one statement: charge it, give its graph name the chunk-local
/// id (a new one, the next in order, on first sight), and seal the chunk
/// once the charge reaches the budget, which starts the next chunk empty.
pub fn next_build_action(s: BuildState, e: &BuildEvent) -> (r: (BuildState, BuildAction))
    requires
        names_distinct(s.graphs@),
        s.graphs@.len() < u32::MAX,
        s.acc_bytes + quad_charge(*e) + (match e.graph {
            Some(g) => g@.len() + PER_QUAD_OVERHEAD,
            None => 0int,
        }) <= u64::MAX,
    ensures
        names_distinct(r.0.graphs@),
        r.0.chunk_budget == s.chunk_budget,
        r.1.graph_id == (match e.graph {
            None => None,
            Some(g) => match name_index(s.graphs@, g@) {
                Some(j) => Some((j + 1) as u32),
                None => Some((s.graphs@.len() + 1) as u32),
            },
        }),
        r.1.seal == (charged(s, *e).0 >= s.chunk_budget),
        r.1.seal ==> r.0.acc_bytes == 0 && r.0.graphs@.len() == 0,
        !r.1.seal ==> r.0.acc_bytes == charged(s, *e).0 && r.0.graphs@.map_values(|v: Vec<u8>| v@) == charged(s, *e).1,
{
    let mut acc = s.acc_bytes + e.s_len + e.p_len + e.o_len + PER_QUAD_OVERHEAD;
    let budget = s.chunk_budget;
    let ghost s0 = s;
    let mut graphs: Vec<Vec<u8>> = s.graphs;
    let mut gid: Option<u32> = None;
    match &e.graph {
        None => {},
        Some(g) => {
            let mut j: usize = 0;
            while j < graphs.len() && !bytes_equal(graphs[j].as_slice(), g.as_slice())
                invariant
                    graphs@ == s0.graphs@,
                    j <= graphs@.len(),
                    forall|q: int| 0 <= q < j ==> graphs@[q]@ != g@,
                decreases graphs@.len() - j,
            {
                j = j + 1;
            }
            if j < graphs.len() {
                proof {
                    let w = choose|w: int| 0 <= w < s0.graphs@.len() && s0.graphs@[w]@ == g@;
                    if w != j {
                        assert(s0.graphs@[w]@ != s0.graphs@[j as int]@);
                    }
                }
                gid = Some((j + 1) as u32);
            } else {
                acc = acc + g.len() as u64 + PER_QUAD_OVERHEAD;
                gid = Some((graphs.len() + 1) as u32);
                let ghost before = graphs@;
                graphs.push(vstd::slice::slice_to_vec(g.as_slice()));
                proof {
                    assert(!(exists|w: int| 0 <= w < s0.graphs@.len() && s0.graphs@[w]@ == g@));
                    assert forall|a: int, b: int| 0 <= a < b < graphs@.len() implies (#[trigger] graphs@[a])@
                        != (#[trigger] graphs@[b])@ by {
                        if b == before.len() {
                            assert(graphs@[a] == before[a]);
                        } else {
                            assert(graphs@[a] == before[a] && graphs@[b] == before[b]);
                        }
                    }
                    assert(graphs@.last()@ == g@);
                    assert(graphs@.map_values(|v: Vec<u8>| v@) =~= s0.graphs@.map_values(|v: Vec<u8>| v@).push(g@));
                }
            }
        },
    }
    let seal = acc >= budget;
    if seal {
        (BuildState { acc_bytes: 0, chunk_budget: budget, graphs: Vec::new() }, BuildAction { graph_id: gid, seal })
    } else {
        (BuildState { acc_bytes: acc, chunk_budget: budget, graphs }, BuildAction { graph_id: gid, seal })
    }
}

/// The terms of a chunk as plain values.
pub open spec fn chunk_view(c: Vec<Vec<u8>>) -> Seq<Seq<u8>> {
    c@.map_values(|t: Vec<u8>| t@)
}

/// Terms in strictly ascending byte order.
pub open spec fn terms_ascending(ts: Seq<Seq<u8>>) -> bool {
    forall|i: int, j: int| 0 <= i < j < ts.len() ==> bytes_lt(#[trigger] ts[i], #[trigger] ts[j])
}

/// Some entry of `merged` is the term `t`.
pub open spec fn in_merged(merged: Seq<Vec<u8>>, t: Seq<u8>) -> bool {
    exists|m: int| 0 <= m < merged.len() && merged[m]@ == t
}

/// Term `t` is a term of some chunk.
pub open spec fn in_chunks(chunks: Seq<Vec<Vec<u8>>>, t: Seq<u8>) -> bool {
    exists|c: int, i: int| 0 <= c < chunks.len() && 0 <= i < chunks[c]@.len() && chunks[c]@[i]@ == t
}

/// Term `t` is one of the first `pos[c]` terms of some chunk `c`.
pub open spec fn taken_from(chunks: Seq<Vec<Vec<u8>>>, pos: Seq<usize>, t: Seq<u8>) -> bool {
    exists|c: int, i: int| 0 <= c < chunks.len() && 0 <= i < pos[c] && chunks[c]@[i]@ == t
}

/// The sum of the first `n` counts.
pub open spec fn sum_upto(v: Seq<usize>, n: int) -> int
    decreases n,
{
    if n <= 0 {
        0
    } else {
        sum_upto(v, n - 1) + v[n - 1]
    }
}

/// The number of terms in the first `n` chunks.
pub open spec fn terms_upto(chunks: Seq<Vec<Vec<u8>>>, n: int) -> int
    decreases n,
{
    if n <= 0 {
        0
    } else {
        terms_upto(chunks, n - 1) + chunks[n - 1]@.len()
    }
}

proof fn lemma_sum_bump(v: Seq<usize>, c: int, x: usize, n: int)
    requires
        0 <= c < n <= v.len(),
        x == v[c] + 1,
    ensures
        sum_upto(v.update(c, x), n) == sum_upto(v, n) + 1,
    decreases n,
{
    if n - 1 > c {
        lemma_sum_bump(v, c, x, n - 1);
    } else {
        assert forall|j: int| 0 <= j < c implies v.update(c, x)[j] == v[j] by {}
        lemma_sum_same(v, v.update(c, x), c);
    }
}

proof fn lemma_sum_same(a: Seq<usize>, b: Seq<usize>, n: int)
    requires
        0 <= n <= a.len(),
        n <= b.len(),
        forall|j: int| 0 <= j < n ==> a[j] == b[j],
    ensures
        sum_upto(a, n) == sum_upto(b, n),
    decreases n,
{
    if n > 0 {
        lemma_sum_same(a, b, n - 1);
    }
}

proof fn lemma_sum_bounded(v: Seq<usize>, chunks: Seq<Vec<Vec<u8>>>, n: int)
    requires
        0 <= n <= v.len(),
        n <= chunks.len(),
        forall|j: int| 0 <= j < n ==> v[j] <= chunks[j]@.len(),
    ensures
        0 <= sum_upto(v, n) <= terms_upto(chunks, n),
    decreases n,
{
    if n > 0 {
        lemma_sum_bounded(v, chunks, n - 1);
    }
}

/// Merge the sorted term lists of several chunks into one sorted list
/// without repeats, and map each chunk's local position to the position of
/// its term in the merged list.
#[verifier::rlimit(100)]
#[verifier::spinoff_prover]
pub fn merge_chunk_terms(chunks: &Vec<Vec<Vec<u8>>>) -> (r: (Vec<Vec<u8>>, Vec<Vec<u32>>))
    requires
        forall|c: int| 0 <= c < chunks@.len() ==> terms_ascending(#[trigger] chunk_view(chunks@[c])),
        terms_upto(chunks@, chunks@.len() as int) <= u32::MAX,
    ensures
        terms_ascending(r.0@.map_values(|t: Vec<u8>| t@)),
        forall|m: int| 0 <= m < r.0@.len() ==> in_chunks(chunks@, (#[trigger] r.0@[m])@),
        r.1@.len() == chunks@.len(),
        forall|c: int| 0 <= c < chunks@.len() ==> (#[trigger] r.1@[c])@.len() == chunks@[c]@.len(),
        forall|c: int, i: int|
            0 <= c < chunks@.len() && 0 <= i < chunks@[c]@.len() ==> (#[trigger] r.1@[c]@[i]) < r.0@.len()
                && r.0@[r.1@[c]@[i] as int]@ == chunks@[c]@[i]@,
{
    let k = chunks.len();
    let ghost total = terms_upto(chunks@, k as int);
    let mut pos: Vec<usize> = Vec::new();
    let mut c0: usize = 0;
    while c0 < k
        invariant
            c0 <= k,
            pos@.len() == c0,
            forall|j: int| 0 <= j < c0 ==> pos@[j] == 0,
        decreases k - c0,
    {
        pos.push(0);
        c0 = c0 + 1;
    }
    proof {
        lemma_sum_same(pos@, Seq::new(k as nat, |j: int| 0usize), k as int);
        assert(sum_upto(Seq::new(k as nat, |j: int| 0usize), k as int) == 0) by {
            lemma_sum_zero(k as int);
        }
    }
    let mut merged: Vec<Vec<u8>> = Vec::new();
    loop
        invariant
            k == chunks@.len(),
            forall|c: int| 0 <= c < chunks@.len() ==> terms_ascending(#[trigger] chunk_view(chunks@[c])),
            total == terms_upto(chunks@, k as int),
            total <= u32::MAX,
            pos@.len() == k,
            forall|c: int| 0 <= c < k ==> #[trigger] pos@[c] <= chunks@[c]@.len(),
            merged@.len() <= sum_upto(pos@, k as int),
            terms_ascending(merged@.map_values(|t: Vec<u8>| t@)),
            forall|c: int|
                0 <= c < k && pos@[c] < chunks@[c]@.len() && merged@.len() > 0 ==> bytes_lt(
                    merged@.last()@,
                    (#[trigger] chunks@[c])@[pos@[c] as int]@,
                ),
            forall|c: int, i: int| 0 <= c < k && 0 <= i < pos@[c] ==> in_merged(merged@, (#[trigger] chunks@[c]@[i])@),
            forall|m: int| 0 <= m < merged@.len() ==> taken_from(chunks@, pos@, (#[trigger] merged@[m])@),
        ensures
            forall|c: int| 0 <= c < k ==> #[trigger] pos@[c] == chunks@[c]@.len(),
            merged@.len() <= u32::MAX,
            pos@.len() == k,
            terms_ascending(merged@.map_values(|t: Vec<u8>| t@)),
            forall|c: int, i: int| 0 <= c < k && 0 <= i < pos@[c] ==> in_merged(merged@, (#[trigger] chunks@[c]@[i])@),
            forall|m: int| 0 <= m < merged@.len() ==> taken_from(chunks@, pos@, (#[trigger] merged@[m])@),
        decreases total - sum_upto(pos@, k as int),
    {
        proof {
            lemma_sum_bounded(pos@, chunks@, k as int);
        }
        let mut best: usize = k;
        let mut c: usize = 0;
        while c < k
            invariant
                k == chunks@.len(),
                pos@.len() == k,
                c <= k,
                best == k || (best < c && pos@[best as int] < chunks@[best as int]@.len()),
                forall|x: int| 0 <= x < c && pos@[x] < chunks@[x]@.len() ==> best < k && !bytes_lt(
                    (#[trigger] chunks@[x])@[pos@[x] as int]@,
                    chunks@[best as int]@[pos@[best as int] as int]@,
                ),
            decreases k - c,
        {
            if pos[c] < chunks[c].len() {
                if best == k || bytes_less(chunks[c][pos[c]].as_slice(), chunks[best][pos[best]].as_slice()) {
                    proof {
                        let hc = chunks@[c as int]@[pos@[c as int] as int]@;
                        lemma_bytes_lt(hc, hc, hc);
                        if best < k {
                            let hb = chunks@[best as int]@[pos@[best as int] as int]@;
                            assert forall|x: int| 0 <= x < c && pos@[x] < chunks@[x]@.len() implies !bytes_lt(
                                (#[trigger] chunks@[x])@[pos@[x] as int]@,
                                hc,
                            ) by {
                                lemma_bytes_lt(chunks@[x]@[pos@[x] as int]@, hc, hb);
                            }
                        }
                    }
                    best = c;
                }
            }
            c = c + 1;
        }
        if best == k {
            proof {
                assert forall|x: int| 0 <= x < k implies #[trigger] pos@[x] == chunks@[x]@.len() by {
                    if pos@[x] < chunks@[x]@.len() {
                        assert(best < k);
                    }
                }
                lemma_sum_bounded(pos@, chunks@, k as int);
            }
            break;
        }
        let term = vstd::slice::slice_to_vec(chunks[best][pos[best]].as_slice());
        let ghost pos0 = pos@;
        let ghost old_merged = merged@;
        assert(forall|x: int|
            0 <= x < k && pos0[x] < chunks@[x]@.len() ==> !bytes_lt(
                (#[trigger] chunks@[x])@[pos0[x] as int]@,
                chunks@[best as int]@[pos0[best as int] as int]@,
            ));
        let mut c2: usize = 0;
        while c2 < k
            invariant
                k == chunks@.len(),
                pos@.len() == k,
                pos0.len() == k,
                best < k,
                pos0[best as int] < chunks@[best as int]@.len(),
                term@ == chunks@[best as int]@[pos0[best as int] as int]@,
                c2 <= k,
                forall|x: int| 0 <= x < k ==> #[trigger] pos0[x] <= chunks@[x]@.len(),
                forall|x: int| c2 <= x < k ==> #[trigger] pos@[x] == pos0[x],
                forall|x: int|
                    0 <= x < c2 ==> (#[trigger] pos@[x] == pos0[x] || (pos@[x] == pos0[x] + 1 && pos0[x] < chunks@[x]@.len()
                        && chunks@[x]@[pos0[x] as int]@ == term@)),
                forall|x: int|
                    0 <= x < c2 && pos0[x] < chunks@[x]@.len() && chunks@[x]@[pos0[x] as int]@ == term@ ==> #[trigger] pos@[x]
                        == pos0[x] + 1,
                sum_upto(pos@, k as int) >= sum_upto(pos0, k as int) + (if c2 > best { 1int } else { 0int }),
            decreases k - c2,
        {
            if pos[c2] < chunks[c2].len() && bytes_equal(chunks[c2][pos[c2]].as_slice(), term.as_slice()) {
                let ghost before = pos@;
                let nv = pos[c2] + 1;
                pos.set(c2, nv);
                proof {
                    lemma_sum_bump(before, c2 as int, nv, k as int);
                }
            }
            c2 = c2 + 1;
        }
        proof {
            lemma_sum_bounded(pos@, chunks@, k as int);
        }
        merged.push(term);
        proof {
            lemma_merge_step(chunks@, pos0, pos@, old_merged, merged@, best as int);
        }
    }
    // each chunk term's position in the merged list
    let mut remaps: Vec<Vec<u32>> = Vec::new();
    let mut c: usize = 0;
    while c < k
        invariant
            k == chunks@.len(),
            merged@.len() <= u32::MAX,
            forall|x: int| 0 <= x < k ==> #[trigger] pos@[x] == chunks@[x]@.len(),
            pos@.len() == k,
            forall|x: int, i: int| 0 <= x < k && 0 <= i < pos@[x] ==> in_merged(merged@, (#[trigger] chunks@[x]@[i])@),
            remaps@.len() == c,
            c <= k,
            forall|x: int| 0 <= x < c ==> (#[trigger] remaps@[x])@.len() == chunks@[x]@.len(),
            forall|x: int, i: int|
                0 <= x < c && 0 <= i < chunks@[x]@.len() ==> (#[trigger] remaps@[x]@[i]) < merged@.len()
                    && merged@[remaps@[x]@[i] as int]@ == chunks@[x]@[i]@,
        decreases k - c,
    {
        let n = chunks[c].len();
        let mut rm: Vec<u32> = Vec::new();
        let mut i: usize = 0;
        while i < n
            invariant
                k == chunks@.len(),
                c < k,
                n == chunks@[c as int]@.len(),
                merged@.len() <= u32::MAX,
                pos@.len() == k,
                pos@[c as int] == n,
                forall|x: int, t: int| 0 <= x < k && 0 <= t < pos@[x] ==> in_merged(merged@, (#[trigger] chunks@[x]@[t])@),
                rm@.len() == i,
                i <= n,
                forall|t: int| 0 <= t < i ==> (#[trigger] rm@[t]) < merged@.len() && merged@[rm@[t] as int]@
                    == chunks@[c as int]@[t]@,
            decreases n - i,
        {
            let mut m: usize = 0;
            while m < merged.len() && !bytes_equal(merged[m].as_slice(), chunks[c][i].as_slice())
                invariant
                    m <= merged@.len(),
                    c < k,
                    k == chunks@.len(),
                    i < chunks@[c as int]@.len(),
                    forall|q: int| 0 <= q < m ==> merged@[q]@ != chunks@[c as int]@[i as int]@,
                decreases merged@.len() - m,
            {
                m = m + 1;
            }
            proof {
                if m == merged@.len() {
                    assert(in_merged(merged@, chunks@[c as int]@[i as int]@));
                    let w = choose|w: int| 0 <= w < merged@.len() && merged@[w]@ == chunks@[c as int]@[i as int]@;
                    assert(merged@[w]@ == chunks@[c as int]@[i as int]@);
                }
            }
            let ghost before = rm@;
            rm.push(m as u32);
            proof {
                assert forall|t: int| 0 <= t < i + 1 implies (#[trigger] rm@[t]) < merged@.len() && merged@[rm@[t] as int]@
                    == chunks@[c as int]@[t]@ by {
                    if t < i {
                        assert(rm@[t] == before[t]);
                    }
                }
            }
            i = i + 1;
        }
        let ghost before = remaps@;
        remaps.push(rm);
        proof {
            assert forall|x: int, t: int|
                0 <= x < c + 1 && 0 <= t < chunks@[x]@.len() implies (#[trigger] remaps@[x]@[t]) < merged@.len()
                    && merged@[remaps@[x]@[t] as int]@ == chunks@[x]@[t]@ by {
                if x < c {
                    assert(remaps@[x] == before[x]);
                }
            }
            assert forall|x: int| 0 <= x < c + 1 implies (#[trigger] remaps@[x])@.len() == chunks@[x]@.len() by {
                if x < c {
                    assert(remaps@[x] == before[x]);
                }
            }
        }
        c = c + 1;
    }
    proof {
        assert forall|m: int| 0 <= m < merged@.len() implies in_chunks(chunks@, (#[trigger] merged@[m])@) by {
            assert(taken_from(chunks@, pos@, merged@[m]@));
            let (c, i) = choose|c: int, i: int|
                0 <= c < chunks@.len() && 0 <= i < pos@[c] && chunks@[c]@[i]@ == merged@[m]@;
            assert(pos@[c] == chunks@[c]@.len());
            assert(0 <= c < chunks@.len() && 0 <= i < chunks@[c]@.len() && merged@[m]@ == chunks@[c]@[i]@);
        }
    }
    (merged, remaps)
}

/// One step of the merge: the least head term `term` of the chunks, taken
/// from chunk `best`, is appended, and every chunk whose head equals it
/// moves on by one.
proof fn lemma_merge_step(
    chunks: Seq<Vec<Vec<u8>>>,
    pos0: Seq<usize>,
    pos: Seq<usize>,
    old_merged: Seq<Vec<u8>>,
    merged: Seq<Vec<u8>>,
    best: int,
)
    requires
        pos0.len() == chunks.len(),
        pos.len() == chunks.len(),
        0 <= best < chunks.len(),
        forall|c: int| 0 <= c < chunks.len() ==> terms_ascending(#[trigger] chunk_view(chunks[c])),
        forall|x: int| 0 <= x < chunks.len() ==> #[trigger] pos0[x] <= chunks[x]@.len(),
        pos0[best] < chunks[best]@.len(),
        merged.len() == old_merged.len() + 1,
        forall|m: int| 0 <= m < old_merged.len() ==> merged[m] == old_merged[m],
        merged[old_merged.len() as int]@ == chunks[best]@[pos0[best] as int]@,
        forall|x: int|
            0 <= x < chunks.len() && pos0[x] < chunks[x]@.len() ==> !bytes_lt(
                (#[trigger] chunks[x])@[pos0[x] as int]@,
                chunks[best]@[pos0[best] as int]@,
            ),
        forall|x: int|
            0 <= x < chunks.len() ==> (#[trigger] pos[x] == pos0[x] || (pos[x] == pos0[x] + 1 && pos0[x]
                < chunks[x]@.len() && chunks[x]@[pos0[x] as int]@ == chunks[best]@[pos0[best] as int]@)),
        forall|x: int|
            0 <= x < chunks.len() && pos0[x] < chunks[x]@.len() && chunks[x]@[pos0[x] as int]@
                == chunks[best]@[pos0[best] as int]@ ==> #[trigger] pos[x] == pos0[x] + 1,
        terms_ascending(old_merged.map_values(|t: Vec<u8>| t@)),
        forall|c: int|
            0 <= c < chunks.len() && pos0[c] < chunks[c]@.len() && old_merged.len() > 0 ==> bytes_lt(
                old_merged.last()@,
                (#[trigger] chunks[c])@[pos0[c] as int]@,
            ),
        forall|c: int, i: int| 0 <= c < chunks.len() && 0 <= i < pos0[c] ==> in_merged(old_merged, (#[trigger] chunks[c]@[i])@),
        forall|m: int| 0 <= m < old_merged.len() ==> taken_from(chunks, pos0, (#[trigger] old_merged[m])@),
    ensures
        forall|x: int| 0 <= x < chunks.len() ==> #[trigger] pos[x] <= chunks[x]@.len(),
        terms_ascending(merged.map_values(|t: Vec<u8>| t@)),
        forall|c: int|
            0 <= c < chunks.len() && pos[c] < chunks[c]@.len() && merged.len() > 0 ==> bytes_lt(
                merged.last()@,
                (#[trigger] chunks[c])@[pos[c] as int]@,
            ),
        forall|c: int, i: int| 0 <= c < chunks.len() && 0 <= i < pos[c] ==> in_merged(merged, (#[trigger] chunks[c]@[i])@),
        forall|m: int| 0 <= m < merged.len() ==> taken_from(chunks, pos, (#[trigger] merged[m])@),
{
    let term = chunks[best]@[pos0[best] as int]@;
    assert forall|x: int| 0 <= x < chunks.len() implies #[trigger] pos[x] <= chunks[x]@.len() by {
        assert(pos[x] == pos0[x] || pos[x] == pos0[x] + 1);
    }
    assert(merged.last()@ == term);
    assert forall|x: int| 0 <= x < chunks.len() && pos[x] < chunks[x]@.len() implies bytes_lt(
        merged.last()@,
        (#[trigger] chunks[x])@[pos[x] as int]@,
    ) by {
        let cv = chunk_view(chunks[x]);
        assert(terms_ascending(cv));
        assert(cv[pos[x] as int] == chunks[x]@[pos[x] as int]@);
        if pos[x] == pos0[x] {
            lemma_bytes_lt(chunks[x]@[pos0[x] as int]@, term, chunks[x]@[pos0[x] as int]@);
            assert(!bytes_lt(chunks[x]@[pos0[x] as int]@, term));
            assert(chunks[x]@[pos0[x] as int]@ != term);
        } else {
            assert(pos[x] == pos0[x] + 1);
            assert(cv[pos0[x] as int] == chunks[x]@[pos0[x] as int]@);
            assert(bytes_lt(cv[pos0[x] as int], cv[pos[x] as int]));
        }
    }
    let mview = old_merged.map_values(|t: Vec<u8>| t@);
    let nview = merged.map_values(|t: Vec<u8>| t@);
    assert(nview =~= mview.push(term));
    assert forall|i: int, j: int| 0 <= i < j < nview.len() implies bytes_lt(#[trigger] nview[i], #[trigger] nview[j]) by {
        if j == nview.len() - 1 {
            assert(nview[i] == mview[i]);
            assert(mview[i] == old_merged[i]@);
            assert(bytes_lt(old_merged.last()@, chunks[best]@[pos0[best] as int]@));
            if i < mview.len() - 1 {
                assert(bytes_lt(mview[i], mview[mview.len() - 1]));
                lemma_bytes_lt(mview[i], old_merged.last()@, term);
            }
        } else {
            assert(nview[i] == mview[i] && nview[j] == mview[j]);
        }
    }
    assert forall|c: int, i: int| 0 <= c < chunks.len() && 0 <= i < pos[c] implies in_merged(
        merged,
        (#[trigger] chunks[c]@[i])@,
    ) by {
        if i < pos0[c] {
            assert(in_merged(old_merged, chunks[c]@[i]@));
            let m = choose|m: int| 0 <= m < old_merged.len() && old_merged[m]@ == chunks[c]@[i]@;
            assert(merged[m] == old_merged[m]);
            assert(merged[m]@ == chunks[c]@[i]@);
        } else {
            assert(pos[c] == pos0[c] + 1);
            assert(merged[old_merged.len() as int]@ == chunks[c]@[i]@);
        }
    }
    assert forall|m: int| 0 <= m < merged.len() implies taken_from(chunks, pos, (#[trigger] merged[m])@) by {
        if m < old_merged.len() {
            assert(merged[m] == old_merged[m]);
            assert(taken_from(chunks, pos0, old_merged[m]@));
            let (c, i) = choose|c: int, i: int|
                0 <= c < chunks.len() && 0 <= i < pos0[c] && chunks[c]@[i]@ == old_merged[m]@;
            assert(pos[c] >= pos0[c]);
            assert(chunks[c]@[i]@ == merged[m]@);
        } else {
            assert(pos[best] == pos0[best] + 1);
            assert(chunks[best]@[pos0[best] as int]@ == merged[m]@);
        }
    }
}

proof fn lemma_sum_zero(n: int)
    requires
        n >= 0,
    ensures
        sum_upto(Seq::new(n as nat, |j: int| 0usize), n) == 0,
    decreases n,
{
    if n > 0 {
        lemma_sum_same(Seq::new(n as nat, |j: int| 0usize), Seq::new((n - 1) as nat, |j: int| 0usize), n - 1);
        lemma_sum_zero(n - 1);
    }
}

} // verus!
