//! A read-only view over a whole file image held in memory: the header, the
//! dictionary, the default-graph index and the named graphs, and the triple
//! pattern queries over them.
use vstd::prelude::*;

use crate::codec::FileError;
use crate::dict::{spec_dictionary, Dictionary};
use crate::header::{header_view, spec_parse_header, Header, HEADER_LEN, LEGACY_FORMAT_VERSION};
use crate::container::spec_container_ranges;
use crate::image::{
    in_image, slice_of, ByteRange, F_BLOCK_CODEC, F_DICT_CODEC, F_DICT_LEN, F_DICT_OFF, F_META_LEN, F_META_OFF,
    F_NAMED_LEN, F_NAMED_OFF, F_PERMS, F_PYR_LEN, F_PYR_OFF, F_ROOT_LEN, F_ROOT_OFF, F_TEXT_LEN, F_TEXT_OFF,
};
use crate::index::perm_count;
use crate::index::{index_matches, GraphIndex, Pattern};
use crate::tile::Triple;
use crate::indexfile::{family_file_ranges_of, family_slot_ranges, legacy_slot_ranges, section_tile_ranges};
use crate::reader::{logged_all, logged_prefix, opt_plan, same_source, token_table_len, RangeReader};
use crate::writer::{index_decodes, index_for_version, spec_named_frames};
use vstd::string::StringSliceAdditionalSpecFns;

verus! {

/// A triple of terms: subject, predicate, object.
pub type TermTriple = (Vec<u8>, Vec<u8>, Vec<u8>);

/// A read-only view over a file image.
pub struct Rete {
    pub header: Header,
    pub dict: Dictionary,
    pub index: GraphIndex,
    /// The payload range of every permutation slot of the index container.
    pub index_section_ranges: Vec<ByteRange>,
    /// Per permutation slot, each tile's leading range and file range.
    pub tile_ranges: Vec<Vec<(u32, u32, ByteRange)>>,
    /// The pyramid-summary section, when the file has one.
    pub pyramid: Option<Vec<u8>>,
    /// The text-index token table's length, when the file has a text index.
    pub token_table_len: Option<u64>,
    /// The named graphs, in stored order.
    pub named_graphs: Vec<(Vec<u8>, GraphIndex)>,
    /// The metadata section (empty when absent).
    pub metadata: Vec<u8>,
}

/// The bytes of an optional term.
pub open spec fn opt_bytes(x: Option<&str>) -> Option<Seq<u8>> {
    match x {
        Some(t) => Some(t.spec_bytes()),
        None => None,
    }
}

/// The terms a triple of ids names, when the dictionary knows all three.
pub open spec fn term_triple(d: Dictionary, t: Triple) -> Option<(Seq<u8>, Seq<u8>, Seq<u8>)> {
    match (d.spec_subject_term(t.0 as int), d.spec_predicate_term(t.1 as int), d.spec_object_term(t.2 as int)) {
        (Some(a), Some(b), Some(c)) => Some((a, b, c)),
        _ => None,
    }
}

/// Triples of ids resolved to terms, in order, dropping those the
/// dictionary cannot name.
pub open spec fn resolve_all(d: Dictionary, ids: Seq<Triple>) -> Seq<(Seq<u8>, Seq<u8>, Seq<u8>)>
    decreases ids.len(),
{
    if ids.len() == 0 {
        seq![]
    } else {
        resolve_all(d, ids.drop_last()) + match term_triple(d, ids.last()) {
            Some(x) => seq![x],
            None => seq![],
        }
    }
}

/// A term triple as plain values.
pub open spec fn tt_view(t: TermTriple) -> (Seq<u8>, Seq<u8>, Seq<u8>) {
    (t.0@, t.1@, t.2@)
}

/// Term triples as plain values.
pub open spec fn tts_view(v: Seq<TermTriple>) -> Seq<(Seq<u8>, Seq<u8>, Seq<u8>)> {
    v.map_values(|t: TermTriple| tt_view(t))
}

/// `pat` binds each bound term to an id naming it and leaves the others free.
pub open spec fn pattern_for(d: Dictionary, s: Option<Seq<u8>>, p: Option<Seq<u8>>, o: Option<Seq<u8>>, pat: Pattern) -> bool {
    &&& match s {
        None => pat.0 is None,
        Some(t) => pat.0 matches Some(id) && d.spec_subject_term(id as int) == Some(t),
    }
    &&& match p {
        None => pat.1 is None,
        Some(t) => pat.1 matches Some(id) && d.spec_predicate_term(id as int) == Some(t),
    }
    &&& match o {
        None => pat.2 is None,
        Some(t) => pat.2 matches Some(id) && d.spec_object_term(id as int) == Some(t),
    }
}

/// Some bound term has no id in its role.
pub open spec fn unresolvable(d: Dictionary, s: Option<Seq<u8>>, p: Option<Seq<u8>>, o: Option<Seq<u8>>) -> bool {
    ||| (s matches Some(t) && forall|id: int| 1 <= id <= u32::MAX ==> d.spec_subject_term(id) != Some(t))
    ||| (p matches Some(t) && forall|id: int| 1 <= id <= u32::MAX ==> d.spec_predicate_term(id) != Some(t))
    ||| (o matches Some(t) && forall|id: int| 1 <= id <= u32::MAX ==> d.spec_object_term(id) != Some(t))
}

/// Id `id` is the least that names term `t` through `f`.
pub open spec fn least_id(f: spec_fn(int) -> Option<Seq<u8>>, t: Seq<u8>, id: Option<u32>) -> bool {
    match id {
        Some(i) => forall|j: int| 1 <= j < i ==> #[trigger] f(j) != Some(t),
        None => true,
    }
}

/// `pat` binds each bound term to the least id naming it in its role.
pub open spec fn pattern_least(
    d: Dictionary,
    s: Option<Seq<u8>>,
    p: Option<Seq<u8>>,
    o: Option<Seq<u8>>,
    pat: Pattern,
) -> bool {
    &&& pattern_for(d, s, p, o, pat)
    &&& (s matches Some(t) ==> least_id(|j: int| d.spec_subject_term(j), t, pat.0))
    &&& (p matches Some(t) ==> least_id(|j: int| d.spec_predicate_term(j), t, pat.1))
    &&& (o matches Some(t) ==> least_id(|j: int| d.spec_object_term(j), t, pat.2))
}

/// At most one pattern binds every bound term to its least id.
pub proof fn lemma_pattern_least_unique(
    d: Dictionary,
    s: Option<Seq<u8>>,
    p: Option<Seq<u8>>,
    o: Option<Seq<u8>>,
    a: Pattern,
    b: Pattern,
)
    requires
        pattern_least(d, s, p, o, a),
        pattern_least(d, s, p, o, b),
    ensures
        a == b,
{
    if let (Some(x), Some(y)) = (a.0, b.0) {
        assert(!(x < y) && !(y < x)) by {
            if x < y {
                assert((|j: int| d.spec_subject_term(j))(x as int) != Some(s->0));
            }
            if y < x {
                assert((|j: int| d.spec_subject_term(j))(y as int) != Some(s->0));
            }
        }
    }
    if let (Some(x), Some(y)) = (a.1, b.1) {
        assert(!(x < y) && !(y < x)) by {
            if x < y {
                assert((|j: int| d.spec_predicate_term(j))(x as int) != Some(p->0));
            }
            if y < x {
                assert((|j: int| d.spec_predicate_term(j))(y as int) != Some(p->0));
            }
        }
    }
    if let (Some(x), Some(y)) = (a.2, b.2) {
        assert(!(x < y) && !(y < x)) by {
            if x < y {
                assert((|j: int| d.spec_object_term(j))(x as int) != Some(o->0));
            }
            if y < x {
                assert((|j: int| d.spec_object_term(j))(y as int) != Some(o->0));
            }
        }
    }
}

/// A pattern that binds every bound term leaves none unknown.
pub proof fn lemma_resolvable(d: Dictionary, s: Option<Seq<u8>>, p: Option<Seq<u8>>, o: Option<Seq<u8>>, pat: Pattern)
    requires
        pattern_for(d, s, p, o, pat),
    ensures
        !unresolvable(d, s, p, o),
{
    if let Some(t) = s {
        let id = pat.0->0;
        if id == 0 {
            assert(d.spec_subject_term(0) is None);
        }
    }
    if let Some(t) = p {
        let id = pat.1->0;
        if id == 0 {
            assert(d.spec_predicate_term(0) is None);
        }
    }
    if let Some(t) = o {
        let id = pat.2->0;
        if id == 0 {
            assert(d.spec_object_term(0) is None);
        }
    }
}

/// Resolve a pattern of optional terms to ids; `None` when a bound term is
/// unknown in its role.
pub fn resolve_query_pattern(dict: &Dictionary, s: Option<&str>, p: Option<&str>, o: Option<&str>) -> (r: Option<
    Pattern,
>)
    ensures
        r matches Some(pat) ==> pattern_for(*dict, opt_bytes(s), opt_bytes(p), opt_bytes(o), pat),
        r matches Some(pat) ==> pattern_least(*dict, opt_bytes(s), opt_bytes(p), opt_bytes(o), pat),
        r is None ==> unresolvable(*dict, opt_bytes(s), opt_bytes(p), opt_bytes(o)),
{
    let sid = match s {
        Some(t) => match dict.subject_id(t) {
            Some(id) => Some(id),
            None => return None,
        },
        None => None,
    };
    let pid = match p {
        Some(t) => match dict.predicate_id(t) {
            Some(id) => Some(id),
            None => return None,
        },
        None => None,
    };
    let oid = match o {
        Some(t) => match dict.object_id(t) {
            Some(id) => Some(id),
            None => return None,
        },
        None => None,
    };
    Some((sid, pid, oid))
}

/// Resolve triples of ids to terms, dropping those the dictionary cannot
/// name.
pub fn resolve_triples(dict: &Dictionary, ids: &Vec<Triple>) -> (r: Vec<TermTriple>)
    ensures
        tts_view(r@) == resolve_all(*dict, ids@),
{
    let n = ids.len();
    let mut out: Vec<TermTriple> = Vec::new();
    let mut i: usize = 0;
    while i < n
        invariant
            n == ids@.len(),
            i <= n,
            tts_view(out@) == resolve_all(*dict, ids@.take(i as int)),
        decreases n - i,
    {
        let (s, p, o) = ids[i];
        let ghost before = tts_view(out@);
        proof {
            assert(ids@.take(i + 1).drop_last() =~= ids@.take(i as int));
            assert(ids@.take(i + 1).last() == ids@[i as int]);
        }
        let a = dict.subject_term(s);
        let b = dict.predicate_term(p);
        let c = dict.object_term(o);
        match (a, b, c) {
            (Some(x), Some(y), Some(z)) => {
                out.push((x, y, z));
                proof {
                    assert(tts_view(out@) =~= before.push(tt_view(out@.last())));
                    assert(tts_view(out@) =~= resolve_all(*dict, ids@.take(i + 1)));
                }
            },
            _ => {
                proof {
                    assert(resolve_all(*dict, ids@.take(i + 1)) =~= before);
                }
            },
        }
        i = i + 1;
    }
    proof {
        assert(ids@.take(n as int) =~= ids@);
    }
    out
}

/// The position of the first named graph called `iri`, from `k` on.
pub open spec fn named_find(named: Seq<(Vec<u8>, GraphIndex)>, iri: Seq<u8>, k: int) -> Option<int>
    decreases named.len() - k,
{
    if k < 0 || k >= named.len() {
        None
    } else if named[k].0@ == iri {
        Some(k)
    } else {
        named_find(named, iri, k + 1)
    }
}

/// A found position holds a graph of that name.
pub proof fn lemma_named_find(named: Seq<(Vec<u8>, GraphIndex)>, iri: Seq<u8>, k: int)
    ensures
        named_find(named, iri, k) matches Some(i) ==> k <= i < named.len() && named[i].0@ == iri,
    decreases named.len() - k,
{
    if 0 <= k < named.len() && named[k].0@ != iri {
        lemma_named_find(named, iri, k + 1);
    }
}

impl Rete {
    /// The index a graph names: the default index for `None`, else the first
    /// named graph of that IRI.
    pub open spec fn graph_target(&self, graph: Option<Seq<u8>>) -> Option<GraphIndex> {
        match graph {
            None => Some(self.index),
            Some(g) => match named_find(self.named_graphs@, g, 0) {
                Some(i) => Some(self.named_graphs@[i].1),
                None => None,
            },
        }
    }

    /// What a pattern query over graph `graph` answers: nothing for an
    /// unknown graph or an unknown bound term; else the graph's matches of
    /// the resolved pattern, resolved back to terms.
    /// What a pattern query of one graph answers: nothing for an unknown
    /// graph or an unknown bound term, else the terms of the matches of the
    /// pattern that binds each term to its least id, in scan order.
    pub open spec fn query_result(
        &self,
        graph: Option<Seq<u8>>,
        s: Option<Seq<u8>>,
        p: Option<Seq<u8>>,
        o: Option<Seq<u8>>,
    ) -> Seq<(Seq<u8>, Seq<u8>, Seq<u8>)> {
        if unresolvable(self.dict, s, p, o) {
            seq![]
        } else {
            match self.graph_target(graph) {
                None => seq![],
                Some(idx) => resolve_all(
                    self.dict,
                    index_matches(idx.perms, idx.sections@, choose|pat: Pattern| pattern_least(self.dict, s, p, o, pat)),
                ),
            }
        }
    }

    pub open spec fn answers(
        &self,
        graph: Option<Seq<u8>>,
        s: Option<Seq<u8>>,
        p: Option<Seq<u8>>,
        o: Option<Seq<u8>>,
        r: Seq<(Seq<u8>, Seq<u8>, Seq<u8>)>,
    ) -> bool {
        match self.graph_target(graph) {
            None => r.len() == 0,
            Some(idx) => (unresolvable(self.dict, s, p, o) && r.len() == 0) || exists|pat: Pattern|
                pattern_for(self.dict, s, p, o, pat) && r == resolve_all(
                    self.dict,
                    index_matches(idx.perms, idx.sections@, pat),
                ),
        }
    }

    /// The file's header.
    pub fn header(&self) -> (r: &Header)
        ensures
            *r == self.header,
    {
        &self.header
    }

    /// The metadata section's bytes, or `None` when the file has none.
    pub fn metadata(&self) -> (r: Option<&[u8]>)
        ensures
            self.metadata@.len() == 0 ==> r is None,
            self.metadata@.len() > 0 ==> (r matches Some(m) && m@ == self.metadata@),
    {
        if self.metadata.len() == 0 {
            None
        } else {
            Some(self.metadata.as_slice())
        }
    }

    /// The term dictionary.
    pub fn dictionary(&self) -> (r: &Dictionary)
        ensures
            *r == self.dict,
    {
        &self.dict
    }

    /// The pyramid-summary section's bytes, when the file has one.
    pub fn pyramid(&self) -> (r: Option<&[u8]>)
        ensures
            match self.pyramid {
                Some(v) => r matches Some(x) && x@ == v@,
                None => r is None,
            },
    {
        match &self.pyramid {
            Some(v) => Some(v.as_slice()),
            None => None,
        }
    }

    /// The pyramid-summary section's bytes when already held: for a view
    /// over a whole image it always is.
    pub fn pyramid_if_loaded(&self) -> (r: Option<&[u8]>)
        ensures
            match self.pyramid {
                Some(v) => r matches Some(x) && x@ == v@,
                None => r is None,
            },
    {
        self.pyramid()
    }

    /// Whether the file carries a text-index section.
    pub fn has_text_index(&self) -> (r: bool)
        ensures
            r == (self.header.text_index_len > 0),
    {
        self.header.text_index_len > 0
    }

    /// Byte length of the text index's leading token table, when the file
    /// has a text index and its length varint reads.
    pub fn text_index_token_table_len(&self) -> (r: Option<u64>)
        ensures
            r == self.token_table_len,
    {
        self.token_table_len
    }

    /// The default-graph index.
    pub fn default_index(&self) -> (r: &GraphIndex)
        ensures
            *r == self.index,
    {
        &self.index
    }

    /// How many named graphs the dataset has.
    pub fn named_graph_count(&self) -> (r: usize)
        ensures
            r == self.named_graphs@.len(),
    {
        self.named_graphs.len()
    }

    /// The IRI of the `i`-th named graph, in stored order.
    pub fn named_graph_name_at(&self, i: usize) -> (r: Option<&[u8]>)
        ensures
            i < self.named_graphs@.len() ==> (r matches Some(n) && n@ == self.named_graphs@[i as int].0@),
            i >= self.named_graphs@.len() ==> r is None,
    {
        if i < self.named_graphs.len() {
            Some(self.named_graphs[i].0.as_slice())
        } else {
            None
        }
    }

    /// The `i`-th named graph as its IRI and index.
    pub fn named_graph_at(&self, i: usize) -> (r: Option<(&[u8], &GraphIndex)>)
        ensures
            i < self.named_graphs@.len() ==> (r matches Some((n, g)) && n@ == self.named_graphs@[i as int].0@ && *g
                == self.named_graphs@[i as int].1),
            i >= self.named_graphs@.len() ==> r is None,
    {
        if i < self.named_graphs.len() {
            Some((self.named_graphs[i].0.as_slice(), &self.named_graphs[i].1))
        } else {
            None
        }
    }

    /// The IRIs of the named graphs, in stored order.
    pub fn graph_names(&self) -> (r: Vec<Vec<u8>>)
        ensures
            r@.len() == self.named_graphs@.len(),
            forall|i: int| 0 <= i < r@.len() ==> (#[trigger] r@[i])@ == self.named_graphs@[i].0@,
    {
        let n = self.named_graphs.len();
        let mut out: Vec<Vec<u8>> = Vec::new();
        let mut i: usize = 0;
        while i < n
            invariant
                n == self.named_graphs@.len(),
                i <= n,
                out@.len() == i,
                forall|x: int| 0 <= x < i ==> (#[trigger] out@[x])@ == self.named_graphs@[x].0@,
            decreases n - i,
        {
            out.push(vstd::slice::slice_to_vec(self.named_graphs[i].0.as_slice()));
            i = i + 1;
        }
        out
    }

    /// The index of the first named graph called `iri`, if any.
    pub fn graph_index(&self, iri: &str) -> (r: Option<&GraphIndex>)
        ensures
            match named_find(self.named_graphs@, iri.spec_bytes(), 0) {
                Some(i) => r matches Some(g) && *g == self.named_graphs@[i].1,
                None => r is None,
            },
    {
        let name = iri.as_bytes();
        let n = self.named_graphs.len();
        let mut i: usize = 0;
        while i < n
            invariant
                n == self.named_graphs@.len(),
                i <= n,
                name@ == iri.spec_bytes(),
                named_find(self.named_graphs@, name@, 0) == named_find(self.named_graphs@, name@, i as int),
            decreases n - i,
        {
            if crate::dict::bytes_equal(self.named_graphs[i].0.as_slice(), name) {
                return Some(&self.named_graphs[i].1);
            }
            i = i + 1;
        }
        None
    }

    /// The index of the first named graph whose IRI is `name`, if any.
    fn graph_index_bytes(&self, name: &[u8]) -> (r: Option<&GraphIndex>)
        ensures
            match named_find(self.named_graphs@, name@, 0) {
                Some(i) => r matches Some(g) && *g == self.named_graphs@[i].1,
                None => r is None,
            },
    {
        let n = self.named_graphs.len();
        let mut i: usize = 0;
        while i < n
            invariant
                n == self.named_graphs@.len(),
                i <= n,
                named_find(self.named_graphs@, name@, 0) == named_find(self.named_graphs@, name@, i as int),
            decreases n - i,
        {
            if crate::dict::bytes_equal(self.named_graphs[i].0.as_slice(), name) {
                return Some(&self.named_graphs[i].1);
            }
            i = i + 1;
        }
        None
    }

    /// The index a graph argument names.
    pub(crate) fn target_index(&self, graph: Option<&[u8]>) -> (r: Option<&GraphIndex>)
        ensures
            match self.graph_target(match graph {
                Some(g) => Some(g@),
                None => None,
            }) {
                Some(g) => r matches Some(x) && *x == g,
                None => r is None,
            },
    {
        match graph {
            None => Some(&self.index),
            Some(g) => self.graph_index_bytes(g),
        }
    }

    /// A graph argument's IRI bytes.
    pub(crate) fn graph_arg(graph: Option<&str>) -> (r: Option<&[u8]>)
        ensures
            match r {
                Some(g) => opt_bytes(graph) == Some(g@),
                None => graph is None,
            },
    {
        match graph {
            Some(g) => Some(g.as_bytes()),
            None => None,
        }
    }

    /// Match a triple pattern of ids in the default graph.
    pub fn match_ids(&self, pattern: Pattern) -> (r: Vec<Triple>)
        ensures
            r@ == index_matches(self.index.perms, self.index.sections@, pattern),
    {
        self.index.match_pattern(pattern)
    }

    /// Match a triple pattern of terms within one graph (`None` is the
    /// default graph), resolving the matches back to terms. An unknown graph
    /// or bound term matches nothing.
    pub fn query_in_graph(&self, graph: Option<&str>, s: Option<&str>, p: Option<&str>, o: Option<&str>) -> (r: Vec<
        TermTriple,
    >)
        ensures
            self.answers(opt_bytes(graph), opt_bytes(s), opt_bytes(p), opt_bytes(o), tts_view(r@)),
            tts_view(r@) == self.query_result(opt_bytes(graph), opt_bytes(s), opt_bytes(p), opt_bytes(o)),
    {
        let pattern = match resolve_query_pattern(&self.dict, s, p, o) {
            Some(pat) => pat,
            None => {
                let v: Vec<TermTriple> = Vec::new();
                proof {
                    assert(tts_view(v@) =~= Seq::<(Seq<u8>, Seq<u8>, Seq<u8>)>::empty());
                }
                return v;
            },
        };
        proof {
            let c = choose|pat: Pattern| pattern_least(self.dict, opt_bytes(s), opt_bytes(p), opt_bytes(o), pat);
            lemma_pattern_least_unique(self.dict, opt_bytes(s), opt_bytes(p), opt_bytes(o), c, pattern);
            lemma_resolvable(self.dict, opt_bytes(s), opt_bytes(p), opt_bytes(o), pattern);
        }
        let index = match self.target_index(Self::graph_arg(graph)) {
            Some(i) => i,
            None => {
                let v: Vec<TermTriple> = Vec::new();
                proof {
                    assert(tts_view(v@) =~= Seq::<(Seq<u8>, Seq<u8>, Seq<u8>)>::empty());
                }
                return v;
            },
        };
        let ids = index.match_pattern(pattern);
        resolve_triples(&self.dict, &ids)
    }

    /// Match a triple pattern of terms in the default graph.
    pub fn query(&self, s: Option<&str>, p: Option<&str>, o: Option<&str>) -> (r: Vec<TermTriple>)
        ensures
            self.answers(None, opt_bytes(s), opt_bytes(p), opt_bytes(o), tts_view(r@)),
    {
        self.query_in_graph(None, s, p, o)
    }

    /// Every triple of a graph (`None` is the default graph), resolved to
    /// terms; nothing for an unknown graph.
    pub fn dump(&self, graph: Option<&str>) -> (r: Vec<TermTriple>)
        ensures
            match self.graph_target(opt_bytes(graph)) {
                None => r@.len() == 0,
                Some(idx) => tts_view(r@) == resolve_all(
                    self.dict,
                    index_matches(idx.perms, idx.sections@, (None, None, None)),
                ),
            },
    {
        let index = match self.target_index(Self::graph_arg(graph)) {
            Some(i) => i,
            None => return Vec::new(),
        };
        let ids = index.match_pattern((None, None, None));
        resolve_triples(&self.dict, &ids)
    }

    /// Every triple of a graph, in scan order, as a list.
    pub fn dump_iter(&self, graph: Option<&str>) -> (r: Vec<TermTriple>)
        ensures
            match self.graph_target(opt_bytes(graph)) {
                None => r@.len() == 0,
                Some(idx) => tts_view(r@) == resolve_all(
                    self.dict,
                    index_matches(idx.perms, idx.sections@, (None, None, None)),
                ),
            },
    {
        self.dump(graph)
    }

    /// The matches of a pattern within one graph, in scan order, as a list.
    pub fn query_iter(&self, graph: Option<&str>, s: Option<&str>, p: Option<&str>, o: Option<&str>) -> (r: Vec<
        TermTriple,
    >)
        ensures
            self.answers(opt_bytes(graph), opt_bytes(s), opt_bytes(p), opt_bytes(o), tts_view(r@)),
            tts_view(r@) == self.query_result(opt_bytes(graph), opt_bytes(s), opt_bytes(p), opt_bytes(o)),
    {
        self.query_in_graph(graph, s, p, o)
    }

    /// Whether a lazily loaded part failed to load: never, for a view over a
    /// whole image.
    pub fn index_incomplete(&self) -> (r: bool)
        ensures
            !r,
    {
        false
    }

    /// Forget recorded load failures: a view over a whole image records none.
    pub fn reset_load_failures(&self) {
    }
}

/// The `len` bytes at `off` of `bytes`, when they lie inside it.
pub fn region(bytes: &[u8], off: u64, len: u64) -> (r: Result<&[u8], FileError>)
    ensures
        in_image(bytes@, off, len) ==> (r matches Ok(x) && x@ == slice_of(bytes@, off, len)),
        !in_image(bytes@, off, len) ==> r == Err::<&[u8], FileError>(FileError::Container("section range out of bounds")),
{
    let n = bytes.len();
    if off > n as u64 || len > n as u64 - off {
        return Err(FileError::Container("section range out of bounds"));
    }
    Ok(vstd::slice::slice_subrange(bytes, off as usize, (off + len) as usize))
}

/// The payload ranges a view records for the slots of its index container.
pub open spec fn slot_ranges_of(h: Header, root: Seq<u8>, r: Seq<ByteRange>) -> bool {
    if h.version == LEGACY_FORMAT_VERSION {
        spec_container_ranges(root, h.root_dir_offset, perm_count(h.perms)) matches Ok(rs) && r == legacy_slot_ranges(
            rs,
            h.perms,
        )
    } else {
        spec_container_ranges(root, h.root_dir_offset, 3) matches Ok(rs) && r == family_slot_ranges(rs)
    }
}

/// The tile file ranges a view records for its index container.
pub open spec fn tile_ranges_of(h: Header, root: Seq<u8>, slots: Seq<ByteRange>, r: Seq<Vec<(u32, u32, ByteRange)>>) -> bool {
    &&& r.len() == 6
    &&& if h.version == LEGACY_FORMAT_VERSION {
        forall|k: int| 0 <= k < 6 ==> (#[trigger] r[k])@ == section_tile_ranges(root, h.root_dir_offset, slots[k])
    } else {
        spec_container_ranges(root, h.root_dir_offset, 3) matches Ok(rs) && forall|k: int|
            0 <= k < 6 ==> (#[trigger] r[k])@ == if k < 3 {
                (family_file_ranges_of(root, h.root_dir_offset, rs[k])->0).0
            } else {
                (family_file_ranges_of(root, h.root_dir_offset, rs[k - 3])->0).1
            }
    }
}

/// The named graphs a view holds for its named-graphs section.
pub open spec fn named_of(h: Header, bytes: Seq<u8>, named: Seq<(Vec<u8>, GraphIndex)>) -> bool {
    if h.named_graphs_len == 0 {
        named.len() == 0
    } else {
        &&& in_image(bytes, h.named_graphs_offset, h.named_graphs_len)
        &&& spec_named_frames(slice_of(bytes, h.named_graphs_offset, h.named_graphs_len)) matches Some(fs)
        &&& named.len() == fs.len()
        &&& forall|i: int|
            0 <= i < fs.len() ==> (#[trigger] named[i]).0@ == fs[i].0 && index_for_version(
                fs[i].1,
                h.block_codec,
                h.perms,
                h.version,
                Ok(named[i].1),
            )
    }
}

/// An optional section's bytes, when the header gives it a length.
pub open spec fn optional_slice(bytes: Seq<u8>, off: u64, len: u64) -> Option<Seq<u8>> {
    if len > 0 {
        Some(slice_of(bytes, off, len))
    } else {
        None
    }
}

/// The token-table length of a text-index section held whole.
pub open spec fn section_token_table_len(section: Seq<u8>) -> Option<u64> {
    token_table_len(section.take(if section.len() < 10 { section.len() as int } else { 10 }), section.len() as u64)
}

/// `r` is the view [`Rete::open`] builds of `bytes`: every section it
/// holds is what the header locates and what that section decodes to.
pub open spec fn opened(bytes: Seq<u8>, r: Rete) -> bool {
    &&& opened_sections(bytes, r)
    &&& (r.header.metadata_len > 0 ==> in_image(bytes, r.header.metadata_offset, r.header.metadata_len))
    &&& r.metadata@ == match optional_slice(bytes, r.header.metadata_offset, r.header.metadata_len) {
        Some(m) => m,
        None => seq![],
    }
}

/// `r` holds, apart from the metadata, what the header of `bytes` locates
/// and what each section decodes to.
pub open spec fn opened_sections(bytes: Seq<u8>, r: Rete) -> bool {
    let h = r.header;
    let root = slice_of(bytes, h.root_dir_offset, h.root_dir_len);
    &&& spec_parse_header(bytes) == Some(header_view(h))
    &&& in_image(bytes, h.dictionary_offset, h.dictionary_len)
    &&& spec_dictionary(slice_of(bytes, h.dictionary_offset, h.dictionary_len), h.dict_codec) == Ok::<
        (Seq<Seq<u8>>, Seq<Seq<u8>>, Seq<Seq<u8>>, Seq<Seq<u8>>),
        FileError,
    >((r.dict.shared_terms(), r.dict.subject_terms(), r.dict.object_terms(), r.dict.predicate_terms()))
    &&& in_image(bytes, h.root_dir_offset, h.root_dir_len)
    &&& index_for_version(root, h.block_codec, h.perms, h.version, Ok(r.index))
    &&& slot_ranges_of(h, root, r.index_section_ranges@)
    &&& tile_ranges_of(h, root, r.index_section_ranges@, r.tile_ranges@)
    &&& (h.pyramid_meta_len > 0 ==> in_image(bytes, h.pyramid_meta_offset, h.pyramid_meta_len))
    &&& match optional_slice(bytes, h.pyramid_meta_offset, h.pyramid_meta_len) {
        Some(p) => r.pyramid matches Some(v) && v@ == p,
        None => r.pyramid is None,
    }
    &&& (h.text_index_len > 0 ==> in_image(bytes, h.text_index_offset, h.text_index_len))
    &&& r.token_table_len == match optional_slice(bytes, h.text_index_offset, h.text_index_len) {
        Some(t) => section_token_table_len(t),
        None => None,
    }
    &&& named_of(h, bytes, r.named_graphs@)
}

/// An image whose every section decodes: the header parses, the sections it
/// locates lie inside the image, the dictionary, index container and named
/// graphs decode, and the index container's ranges and tile directories
/// read.
pub open spec fn openable(bytes: Seq<u8>) -> bool {
    match spec_parse_header(bytes) {
        None => false,
        Some(v) => {
            let f = v.2;
            let version = v.0;
            let perms = f[F_PERMS as int] as u8;
            let bcodec = f[F_BLOCK_CODEC as int] as u8;
            let root_off = f[F_ROOT_OFF as int];
            let root = slice_of(bytes, root_off, f[F_ROOT_LEN as int]);
            &&& in_image(bytes, f[F_DICT_OFF as int], f[F_DICT_LEN as int])
            &&& spec_dictionary(slice_of(bytes, f[F_DICT_OFF as int], f[F_DICT_LEN as int]), f[F_DICT_CODEC as int] as u8) is Ok
            &&& in_image(bytes, root_off, f[F_ROOT_LEN as int])
            &&& index_decodes(root, bcodec, perms, version)
            &&& if version == LEGACY_FORMAT_VERSION {
                spec_container_ranges(root, root_off, perm_count(perms)) is Ok
            } else {
                spec_container_ranges(root, root_off, 3) matches Ok(rs) && forall|k: int|
                    0 <= k < 3 ==> #[trigger] family_file_ranges_of(root, root_off, rs[k]) is Some
            }
            &&& (f[F_PYR_LEN as int] > 0 ==> in_image(bytes, f[F_PYR_OFF as int], f[F_PYR_LEN as int]))
            &&& (f[F_TEXT_LEN as int] > 0 ==> in_image(bytes, f[F_TEXT_OFF as int], f[F_TEXT_LEN as int]))
            &&& (f[F_META_LEN as int] > 0 ==> in_image(bytes, f[F_META_OFF as int], f[F_META_LEN as int]))
            &&& (f[F_NAMED_LEN as int] > 0 ==> {
                &&& in_image(bytes, f[F_NAMED_OFF as int], f[F_NAMED_LEN as int])
                &&& spec_named_frames(slice_of(bytes, f[F_NAMED_OFF as int], f[F_NAMED_LEN as int])) matches Some(fs)
                &&& forall|i: int| 0 <= i < fs.len() ==> #[trigger] index_decodes(fs[i].1, bcodec, perms, version)
            })
        },
    }
}

/// The token-table length of a text-index section held whole.
fn token_table_len_of(section: &[u8]) -> (r: Option<u64>)
    ensures
        r == section_token_table_len(section@),
{
    let len = section.len();
    let n = if len < 10 { len } else { 10 };
    let head = vstd::slice::slice_subrange(section, 0, n);
    proof {
        assert(head@ == section@.take(n as int));
    }
    let (ttlen, used) = match crate::varint::read_uvarint(head) {
        Some(x) => x,
        None => return None,
    };
    proof {
        crate::varint::lemma_leb_decode_bounds(head@, 10);
    }
    let total = ttlen.saturating_add(used as u64);
    Some(if total < len as u64 { total } else { len as u64 })
}

/// The steps of an open before its optional sections succeed: the
/// dictionary and index container lie inside the image and decode, and the
/// container's section ranges read.
pub open spec fn open_front_ok(bytes: Seq<u8>, f: Seq<u64>, version: u8) -> bool {
    let perms = f[F_PERMS as int] as u8;
    let root_off = f[F_ROOT_OFF as int];
    let root = slice_of(bytes, root_off, f[F_ROOT_LEN as int]);
    &&& in_image(bytes, f[F_DICT_OFF as int], f[F_DICT_LEN as int])
    &&& spec_dictionary(slice_of(bytes, f[F_DICT_OFF as int], f[F_DICT_LEN as int]), f[F_DICT_CODEC as int] as u8) is Ok
    &&& in_image(bytes, root_off, f[F_ROOT_LEN as int])
    &&& index_decodes(root, f[F_BLOCK_CODEC as int] as u8, perms, version)
    &&& if version == LEGACY_FORMAT_VERSION {
        spec_container_ranges(root, root_off, perm_count(perms)) is Ok
    } else {
        spec_container_ranges(root, root_off, 3) is Ok
    }
}

/// An optional section of `len` bytes at `off` is absent or inside the image.
pub open spec fn absent_or_inside(bytes: Seq<u8>, off: u64, len: u64) -> bool {
    len == 0 || in_image(bytes, off, len)
}

/// The named-graph section is absent, or inside the image with every frame
/// decoding.
pub open spec fn named_ok(bytes: Seq<u8>, f: Seq<u64>, version: u8) -> bool {
    f[F_NAMED_LEN as int] == 0 || {
        &&& in_image(bytes, f[F_NAMED_OFF as int], f[F_NAMED_LEN as int])
        &&& spec_named_frames(slice_of(bytes, f[F_NAMED_OFF as int], f[F_NAMED_LEN as int])) matches Some(fs)
        &&& forall|i: int|
            0 <= i < fs.len() ==> #[trigger] index_decodes(
                fs[i].1,
                f[F_BLOCK_CODEC as int] as u8,
                f[F_PERMS as int] as u8,
                version,
            )
    }
}

/// The section of `len` bytes at `off` is present and not inside the image.
pub open spec fn present_outside(bytes: Seq<u8>, off: u64, len: u64) -> bool {
    len > 0 && !in_image(bytes, off, len)
}

impl Rete {
    /// Open a whole file image held in memory: parse the header, then decode
    /// the dictionary, the index container (and its ranges and tile
    /// directories), the named graphs, and take the pyramid, text-index and
    /// metadata sections as they are stored.
    #[verifier::rlimit(100)]
    #[verifier::spinoff_prover]
    pub fn open(bytes: &[u8]) -> (r: Result<Rete, FileError>)
        ensures
            r matches Ok(v) ==> opened(bytes@, v),
            openable(bytes@) ==> r is Ok,
            spec_parse_header(bytes@) is None ==> r matches Err(FileError::Header(_)),
            spec_parse_header(bytes@) matches Some(v) ==> (!in_image(bytes@, v.2[F_DICT_OFF as int], v.2[F_DICT_LEN as int])
                ==> r == Err::<Rete, FileError>(FileError::Container("section range out of bounds"))),
            spec_parse_header(bytes@) matches Some(v) ==> (in_image(bytes@, v.2[F_DICT_OFF as int], v.2[F_DICT_LEN as int])
                && spec_dictionary(slice_of(bytes@, v.2[F_DICT_OFF as int], v.2[F_DICT_LEN as int]), v.2[F_DICT_CODEC as int] as u8)
                is Ok && !in_image(bytes@, v.2[F_ROOT_OFF as int], v.2[F_ROOT_LEN as int]) ==> r == Err::<Rete, FileError>(
                FileError::Container("section range out of bounds"),
            )),
            spec_parse_header(bytes@) matches Some(v) ==> ({
                let f = v.2;
                let oob = Err::<Rete, FileError>(FileError::Container("section range out of bounds"));
                &&& open_front_ok(bytes@, f, v.0) && present_outside(bytes@, f[F_PYR_OFF as int], f[F_PYR_LEN as int]) ==> r
                    == oob
                &&& open_front_ok(bytes@, f, v.0) && absent_or_inside(bytes@, f[F_PYR_OFF as int], f[F_PYR_LEN as int])
                    && present_outside(bytes@, f[F_TEXT_OFF as int], f[F_TEXT_LEN as int]) ==> r == oob
                &&& open_front_ok(bytes@, f, v.0) && absent_or_inside(bytes@, f[F_PYR_OFF as int], f[F_PYR_LEN as int])
                    && absent_or_inside(bytes@, f[F_TEXT_OFF as int], f[F_TEXT_LEN as int]) && present_outside(
                    bytes@,
                    f[F_NAMED_OFF as int],
                    f[F_NAMED_LEN as int],
                ) ==> r == oob
                &&& open_front_ok(bytes@, f, v.0) && absent_or_inside(bytes@, f[F_PYR_OFF as int], f[F_PYR_LEN as int])
                    && absent_or_inside(bytes@, f[F_TEXT_OFF as int], f[F_TEXT_LEN as int]) && named_ok(bytes@, f, v.0)
                    && present_outside(bytes@, f[F_META_OFF as int], f[F_META_LEN as int]) ==> r == oob
            }),
    {
        let header = match Header::from_bytes(bytes) {
            Ok(h) => h,
            Err(e) => return Err(FileError::Header(e)),
        };
        proof {
            crate::ranged::lemma_locating_fields(header);
            crate::header::lemma_scalar_fields(header);
        }
        let ghost v = header_view(header);
        let dict_bytes = region(bytes, header.dictionary_offset, header.dictionary_len)?;
        let dict = crate::dict::decode_dictionary_container(dict_bytes, header.dict_codec)?;
        let index_bytes = region(bytes, header.root_dir_offset, header.root_dir_len)?;
        let index = match crate::indexfile::decode_index_for_version(index_bytes, header.block_codec, header.perms, header.version) {
            Ok(i) => i,
            Err(e) => {
                proof {
                    if index_decodes(index_bytes@, header.block_codec, header.perms, header.version) {
                        crate::writer::lemma_index_decodes_ok(index_bytes@, header.block_codec, header.perms, header.version, Err(e));
                    }
                }
                return Err(e);
            },
        };
        let index_section_ranges = crate::indexfile::decode_index_section_ranges_for_version(
            index_bytes,
            header.root_dir_offset,
            header.perms,
            header.version,
        )?;
        let pyramid = if header.pyramid_meta_len > 0 {
            Some(vstd::slice::slice_to_vec(region(bytes, header.pyramid_meta_offset, header.pyramid_meta_len)?))
        } else {
            None
        };
        let token_table_len = if header.text_index_len > 0 {
            token_table_len_of(region(bytes, header.text_index_offset, header.text_index_len)?)
        } else {
            None
        };
        let named_graphs = if header.named_graphs_len > 0 {
            let nb = region(bytes, header.named_graphs_offset, header.named_graphs_len)?;
            crate::writer::decode_named_graphs(nb, header.block_codec, header.perms, header.version)?
        } else {
            Vec::new()
        };
        let metadata = if header.metadata_len > 0 {
            vstd::slice::slice_to_vec(region(bytes, header.metadata_offset, header.metadata_len)?)
        } else {
            Vec::new()
        };
        let tile_ranges = if header.version == LEGACY_FORMAT_VERSION {
            crate::indexfile::tile_file_ranges(index_bytes, header.root_dir_offset, &index_section_ranges)
        } else {
            crate::indexfile::family_tile_file_ranges(index_bytes, header.root_dir_offset)?
        };
        let r = Rete {
            header,
            dict,
            index,
            index_section_ranges,
            tile_ranges,
            pyramid,
            token_table_len,
            named_graphs,
            metadata,
        };
        proof {
            assert(r.metadata@ == match optional_slice(bytes@, header.metadata_offset, header.metadata_len) {
                Some(m) => m,
                None => seq![],
            });
        }
        Ok(r)
    }
}

/// An owned copy of a term triple.
pub fn copy_triple(t: &TermTriple) -> (r: TermTriple)
    ensures
        tt_view(r) == tt_view(*t),
{
    (
        vstd::slice::slice_to_vec(t.0.as_slice()),
        vstd::slice::slice_to_vec(t.1.as_slice()),
        vstd::slice::slice_to_vec(t.2.as_slice()),
    )
}

/// A pattern's matches in one index, resolved to terms and tagged with
/// their graph.
pub open spec fn tagged(d: Dictionary, idx: GraphIndex, pat: Pattern, g: Option<Seq<u8>>) -> Seq<
    ((Seq<u8>, Seq<u8>, Seq<u8>), Option<Seq<u8>>),
> {
    resolve_all(d, index_matches(idx.perms, idx.sections@, pat)).map_values(
        |t: (Seq<u8>, Seq<u8>, Seq<u8>)| (t, g),
    )
}

/// A quad as plain values.
pub open spec fn quad_view(q: (TermTriple, Option<Vec<u8>>)) -> ((Seq<u8>, Seq<u8>, Seq<u8>), Option<Seq<u8>>) {
    (
        tt_view(q.0),
        match q.1 {
            Some(g) => Some(g@),
            None => None,
        },
    )
}

impl Rete {
    /// The tagged matches of the named graphs before `k`, each graph looked
    /// up by its IRI.
    pub open spec fn named_tagged(&self, pat: Pattern, k: int) -> Seq<((Seq<u8>, Seq<u8>, Seq<u8>), Option<Seq<u8>>)>
        decreases k,
    {
        if k <= 0 {
            seq![]
        } else {
            let name = self.named_graphs@[k - 1].0@;
            self.named_tagged(pat, k - 1) + match self.graph_target(Some(name)) {
                Some(idx) => tagged(self.dict, idx, pat, Some(name)),
                None => seq![],
            }
        }
    }

    /// All `(subject node, object node)` pairs of a predicate in the default
    /// graph, as unified node ids, for the predicate's least id; none for an
    /// unknown predicate.
    pub fn predicate_pairs(&self, predicate: &str) -> (r: Vec<(u32, u32)>)
        ensures
            (r@.len() == 0 && forall|id: int|
                1 <= id <= u32::MAX ==> self.dict.spec_predicate_term(id) != Some(predicate.spec_bytes()))
                || exists|pid: u32|
                self.dict.spec_predicate_term(pid as int) == Some(predicate.spec_bytes()) && (forall|j: int|
                    1 <= j < pid ==> self.dict.spec_predicate_term(j) != Some(predicate.spec_bytes())) && r@ == index_matches(
                    self.index.perms,
                    self.index.sections@,
                    (None, Some(pid), None),
                ).map_values(|t: Triple| (t.0, self.dict.spec_object_node(t.2))),
            (forall|id: int| 1 <= id <= u32::MAX ==> self.dict.spec_predicate_term(id) != Some(predicate.spec_bytes()))
                ==> r@.len() == 0,
    {
        let pid = match self.dict.predicate_id(predicate) {
            Some(p) => p,
            None => return Vec::new(),
        };
        let ids = self.index.match_pattern((None, Some(pid), None));
        let n = ids.len();
        let mut out: Vec<(u32, u32)> = Vec::new();
        let mut i: usize = 0;
        while i < n
            invariant
                n == ids@.len(),
                i <= n,
                out@ == ids@.take(i as int).map_values(|t: Triple| (t.0, self.dict.spec_object_node(t.2))),
            decreases n - i,
        {
            let (s, _p, o) = ids[i];
            out.push((self.dict.subject_node(s), self.dict.object_node(o)));
            proof {
                assert(out@ =~= ids@.take(i + 1).map_values(|t: Triple| (t.0, self.dict.spec_object_node(t.2))));
            }
            i = i + 1;
        }
        proof {
            assert(ids@.take(n as int) =~= ids@);
        }
        out
    }

    /// Match a triple pattern in the default graph and then in every named
    /// graph, in stored order, tagging each match with its graph (`None` for
    /// the default graph).
    pub fn query_quads(&self, s: Option<&str>, p: Option<&str>, o: Option<&str>) -> (r: Vec<(TermTriple, Option<Vec<u8>>)>)
        ensures
            (unresolvable(self.dict, opt_bytes(s), opt_bytes(p), opt_bytes(o)) && r@.len() == 0) || exists|pat: Pattern|
                pattern_for(self.dict, opt_bytes(s), opt_bytes(p), opt_bytes(o), pat) && quads_view(r@)
                    == tagged(self.dict, self.index, pat, None) + self.named_tagged(pat, self.named_graphs@.len() as int),
    {
        let pattern = match resolve_query_pattern(&self.dict, s, p, o) {
            Some(pat) => pat,
            None => return Vec::new(),
        };
        let mut out: Vec<(TermTriple, Option<Vec<u8>>)> = Vec::new();
        let first = resolve_triples(&self.dict, &self.index.match_pattern(pattern));
        proof {
            assert(quads_view(out@) =~= Seq::<((Seq<u8>, Seq<u8>, Seq<u8>), Option<Seq<u8>>)>::empty());
        }
        push_tagged(&mut out, &first, None);
        proof {
            assert(quads_view(out@) =~= tagged(self.dict, self.index, pattern, None));
        }
        let n = self.named_graphs.len();
        let mut i: usize = 0;
        while i < n
            invariant
                n == self.named_graphs@.len(),
                i <= n,
                quads_view(out@) == tagged(self.dict, self.index, pattern, None) + self.named_tagged(pattern, i as int),
            decreases n - i,
        {
            let name = self.named_graphs[i].0.as_slice();
            let ghost before = quads_view(out@);
            match self.graph_index_bytes(name) {
                Some(idx) => {
                    let res = resolve_triples(&self.dict, &idx.match_pattern(pattern));
                    push_tagged(&mut out, &res, Some(name));
                    proof {
                        assert(tag_all(tts_view(res@), Some(name@)) == tagged(self.dict, *idx, pattern, Some(name@)));
                        assert(self.named_tagged(pattern, i + 1) =~= self.named_tagged(pattern, i as int) + tagged(
                            self.dict,
                            *idx,
                            pattern,
                            Some(name@),
                        ));
                    }
                },
                None => {
                    proof {
                        assert(self.named_tagged(pattern, i + 1) =~= self.named_tagged(pattern, i as int));
                    }
                },
            }
            i = i + 1;
        }
        out
    }
}

/// Quads as plain values.
pub open spec fn quads_view(v: Seq<(TermTriple, Option<Vec<u8>>)>) -> Seq<((Seq<u8>, Seq<u8>, Seq<u8>), Option<Seq<u8>>)> {
    v.map_values(|q: (TermTriple, Option<Vec<u8>>)| quad_view(q))
}

/// Term triples tagged with a graph.
pub open spec fn tag_all(ts: Seq<(Seq<u8>, Seq<u8>, Seq<u8>)>, g: Option<Seq<u8>>) -> Seq<
    ((Seq<u8>, Seq<u8>, Seq<u8>), Option<Seq<u8>>),
> {
    ts.map_values(|t: (Seq<u8>, Seq<u8>, Seq<u8>)| (t, g))
}

/// Append copies of `ts`, each tagged with graph `g`.
fn push_tagged(out: &mut Vec<(TermTriple, Option<Vec<u8>>)>, ts: &Vec<TermTriple>, g: Option<&[u8]>)
    ensures
        quads_view(final(out)@) == quads_view(old(out)@) + tag_all(
            tts_view(ts@),
            match g {
                Some(x) => Some(x@),
                None => None,
            },
        ),
{
    let ghost gv = match g {
        Some(x) => Some(x@),
        None => None,
    };
    let ghost start = quads_view(out@);
    let m = ts.len();
    let mut j: usize = 0;
    while j < m
        invariant
            m == ts@.len(),
            j <= m,
            gv == match g {
                Some(x) => Some(x@),
                None => None::<Seq<u8>>,
            },
            quads_view(out@) == start + tag_all(tts_view(ts@).take(j as int), gv),
        decreases m - j,
    {
        let t = copy_triple(&ts[j]);
        let tag: Option<Vec<u8>> = match g {
            Some(x) => Some(vstd::slice::slice_to_vec(x)),
            None => None,
        };
        let ghost before = quads_view(out@);
        out.push((t, tag));
        proof {
            assert(quads_view(out@) =~= before.push(quad_view((t, tag))));
            assert(quad_view((t, tag)) == (tt_view(ts@[j as int]), gv));
            assert(tag_all(tts_view(ts@).take(j + 1), gv) =~= tag_all(tts_view(ts@).take(j as int), gv).push(
                (tt_view(ts@[j as int]), gv),
            ));
            assert(quads_view(out@) =~= start + tag_all(tts_view(ts@).take(j + 1), gv));
        }
        j = j + 1;
    }
    proof {
        assert(tts_view(ts@).take(m as int) =~= tts_view(ts@));
    }
}

/// The `len` bytes at `off` of the image behind `reader`.
fn read_region<R: RangeReader>(reader: &mut R, off: u64, len: u64) -> (r: Result<Vec<u8>, FileError>)
    ensures
        same_source(*final(reader), *old(reader)),
        final(reader).requests() == old(reader).requests().push((off, len)),
        r matches Ok(v) ==> in_image(old(reader).image(), off, len) && v@ == slice_of(old(reader).image(), off, len),
        old(reader).reliable() ==> (r is Ok <==> in_image(old(reader).image(), off, len)),
{
    reader.read_at(off, len)
}

/// The reads [`Rete::open_ranged`] makes: the header, the dictionary, the
/// index container, then the pyramid, text-index and named-graph sections
/// that are present; never the metadata.
pub open spec fn open_plan(img: Seq<u8>) -> Seq<(u64, u64)> {
    seq![(0u64, HEADER_LEN as u64)] + match spec_parse_header(img) {
        Some(v) => seq![
            (v.2[F_DICT_OFF as int], v.2[F_DICT_LEN as int]),
            (v.2[F_ROOT_OFF as int], v.2[F_ROOT_LEN as int]),
        ] + opt_plan(v.2[F_PYR_OFF as int], v.2[F_PYR_LEN as int]) + opt_plan(
            v.2[F_TEXT_OFF as int],
            v.2[F_TEXT_LEN as int],
        ) + opt_plan(v.2[F_NAMED_OFF as int], v.2[F_NAMED_LEN as int]),
        None => seq![],
    }
}

/// The reads [`SearchView::open_ranged`] makes: the header, the dictionary,
/// and at most ten bytes of a present text index.
pub open spec fn search_plan(img: Seq<u8>) -> Seq<(u64, u64)> {
    seq![(0u64, HEADER_LEN as u64)] + match spec_parse_header(img) {
        Some(v) => seq![(v.2[F_DICT_OFF as int], v.2[F_DICT_LEN as int])] + opt_plan(
            v.2[F_TEXT_OFF as int],
            if v.2[F_TEXT_LEN as int] < 10 { v.2[F_TEXT_LEN as int] } else { 10 },
        ),
        None => seq![],
    }
}

/// The reads of a ranged open after the index container: the pyramid, text
/// index and named-graph sections that are present.
pub open spec fn tail_plan(h: Header) -> Seq<(u64, u64)> {
    opt_plan(h.pyramid_meta_offset, h.pyramid_meta_len) + opt_plan(h.text_index_offset, h.text_index_len) + opt_plan(
        h.named_graphs_offset,
        h.named_graphs_len,
    )
}

/// The optional sections a header locates lie inside the image, and its
/// named graphs decode.
pub open spec fn tail_ok(h: Header, bytes: Seq<u8>) -> bool {
    &&& (h.pyramid_meta_len > 0 ==> in_image(bytes, h.pyramid_meta_offset, h.pyramid_meta_len))
    &&& (h.text_index_len > 0 ==> in_image(bytes, h.text_index_offset, h.text_index_len))
    &&& (h.named_graphs_len > 0 ==> {
        &&& in_image(bytes, h.named_graphs_offset, h.named_graphs_len)
        &&& spec_named_frames(slice_of(bytes, h.named_graphs_offset, h.named_graphs_len)) matches Some(fs)
        &&& forall|i: int| 0 <= i < fs.len() ==> #[trigger] index_decodes(fs[i].1, h.block_codec, h.perms, h.version)
    })
}

/// What the optional sections read back as.
pub open spec fn tail_read(
    h: Header,
    bytes: Seq<u8>,
    pyramid: Option<Vec<u8>>,
    token_table_len: Option<u64>,
    named: Seq<(Vec<u8>, GraphIndex)>,
) -> bool {
    &&& (h.pyramid_meta_len > 0 ==> in_image(bytes, h.pyramid_meta_offset, h.pyramid_meta_len))
    &&& match optional_slice(bytes, h.pyramid_meta_offset, h.pyramid_meta_len) {
        Some(p) => pyramid matches Some(v) && v@ == p,
        None => pyramid is None,
    }
    &&& (h.text_index_len > 0 ==> in_image(bytes, h.text_index_offset, h.text_index_len))
    &&& token_table_len == match optional_slice(bytes, h.text_index_offset, h.text_index_len) {
        Some(t) => section_token_table_len(t),
        None => None,
    }
    &&& named_of(h, bytes, named)
}

proof fn lemma_tail_ok(img: Seq<u8>, h: Header)
    requires
        spec_parse_header(img) == Some(header_view(h)),
        openable(img),
    ensures
        tail_ok(h, img),
{
    crate::header::lemma_scalar_fields(h);
}

/// What an openable image gives each step of a ranged open, over the fields
/// of its header.
proof fn lemma_openable_parts(img: Seq<u8>, h: Header)
    requires
        spec_parse_header(img) == Some(header_view(h)),
        openable(img),
    ensures
        in_image(img, h.root_dir_offset, h.root_dir_len),
        index_decodes(slice_of(img, h.root_dir_offset, h.root_dir_len), h.block_codec, h.perms, h.version),
        if h.version == LEGACY_FORMAT_VERSION {
            spec_container_ranges(slice_of(img, h.root_dir_offset, h.root_dir_len), h.root_dir_offset, perm_count(h.perms))
                is Ok
        } else {
            spec_container_ranges(slice_of(img, h.root_dir_offset, h.root_dir_len), h.root_dir_offset, 3) matches Ok(rs)
                && forall|k: int|
                0 <= k < 3 ==> #[trigger] family_file_ranges_of(
                    slice_of(img, h.root_dir_offset, h.root_dir_len),
                    h.root_dir_offset,
                    rs[k],
                ) is Some
        },
        tail_ok(h, img),
{
    crate::header::lemma_scalar_fields(h);
    lemma_tail_ok(img, h);
}

/// Read the pyramid, text-index and named-graph sections a header locates,
/// in that order, each only when present.
#[verifier::rlimit(50)]
fn read_open_tail<R: RangeReader>(reader: &mut R, header: &Header) -> (r: Result<
    (Option<Vec<u8>>, Option<u64>, Vec<(Vec<u8>, GraphIndex)>),
    FileError,
>)
    ensures
        same_source(*final(reader), *old(reader)),
        logged_prefix(old(reader).requests(), final(reader).requests(), tail_plan(*header)),
        r is Ok ==> logged_all(old(reader).requests(), final(reader).requests(), tail_plan(*header)),
        r matches Ok((p, t, n)) ==> tail_read(*header, old(reader).image(), p, t, n@),
        old(reader).reliable() && tail_ok(*header, old(reader).image()) ==> r is Ok,
{
    let ghost log0 = reader.requests();
    let ghost py = opt_plan(header.pyramid_meta_offset, header.pyramid_meta_len);
    let ghost tx = opt_plan(header.text_index_offset, header.text_index_len);
    let ghost ng = opt_plan(header.named_graphs_offset, header.named_graphs_len);
    let pyramid = if header.pyramid_meta_len > 0 {
        let got = read_region(reader, header.pyramid_meta_offset, header.pyramid_meta_len);
        proof {
            crate::reader::lemma_logged_split(log0, py, tx + ng);
            assert(tail_plan(*header) =~= py + (tx + ng));
            assert(reader.requests() =~= log0 + py);
        }
        Some(got?)
    } else {
        None
    };
    proof {
        assert(reader.requests() =~= log0 + py);
    }
    let token_table_len = if header.text_index_len > 0 {
        let got = read_region(reader, header.text_index_offset, header.text_index_len);
        proof {
            crate::reader::lemma_logged_split(log0, py + tx, ng);
            assert(tail_plan(*header) =~= (py + tx) + ng);
            assert(reader.requests() =~= log0 + (py + tx));
        }
        let t = got?;
        token_table_len_of(t.as_slice())
    } else {
        None
    };
    proof {
        assert(reader.requests() =~= log0 + (py + tx));
    }
    let named_graphs = if header.named_graphs_len > 0 {
        let got = read_region(reader, header.named_graphs_offset, header.named_graphs_len);
        proof {
            crate::reader::lemma_logged_split(log0, py + tx + ng, seq![]);
            assert(tail_plan(*header) =~= (py + tx + ng) + seq![]);
            assert(reader.requests() =~= log0 + (py + tx + ng));
        }
        let nb = got?;
        crate::writer::decode_named_graphs(nb.as_slice(), header.block_codec, header.perms, header.version)?
    } else {
        proof {
            crate::reader::lemma_logged_split(log0, py + tx + ng, seq![]);
            assert(tail_plan(*header) =~= (py + tx + ng) + seq![]);
            assert(reader.requests() =~= log0 + (py + tx + ng));
        }
        Vec::new()
    };
    Ok((pyramid, token_table_len, named_graphs))
}

/// Decode an index container and the ranges of its permutation sections.
#[verifier::rlimit(50)]
fn decode_open_index(index_bytes: &[u8], header: &Header) -> (r: Result<(GraphIndex, Vec<ByteRange>), FileError>)
    ensures
        r matches Ok((i, rs)) ==> index_for_version(index_bytes@, header.block_codec, header.perms, header.version, Ok(i))
            && slot_ranges_of(*header, index_bytes@, rs@),
        ({
            &&& index_decodes(index_bytes@, header.block_codec, header.perms, header.version)
            &&& if header.version == LEGACY_FORMAT_VERSION {
                spec_container_ranges(index_bytes@, header.root_dir_offset, perm_count(header.perms)) is Ok
            } else {
                spec_container_ranges(index_bytes@, header.root_dir_offset, 3) is Ok
            }
        }) ==> r is Ok,
{
    let index = match crate::indexfile::decode_index_for_version(
        index_bytes,
        header.block_codec,
        header.perms,
        header.version,
    ) {
        Ok(i) => i,
        Err(e) => {
            proof {
                if index_decodes(index_bytes@, header.block_codec, header.perms, header.version) {
                    crate::writer::lemma_index_decodes_ok(
                        index_bytes@,
                        header.block_codec,
                        header.perms,
                        header.version,
                        Err(e),
                    );
                }
            }
            return Err(e);
        },
    };
    let index_section_ranges = crate::indexfile::decode_index_section_ranges_for_version(
        index_bytes,
        header.root_dir_offset,
        header.perms,
        header.version,
    )?;
    Ok((index, index_section_ranges))
}

/// The first reads of a ranged open: the header, then the dictionary it
/// locates.
pub open spec fn front_plan(img: Seq<u8>) -> Seq<(u64, u64)> {
    seq![(0u64, HEADER_LEN as u64)] + match spec_parse_header(img) {
        Some(v) => seq![(v.2[F_DICT_OFF as int], v.2[F_DICT_LEN as int])],
        None => seq![],
    }
}

/// Read the header and decode the dictionary it locates.
#[verifier::rlimit(50)]
fn read_open_front<R: RangeReader>(reader: &mut R) -> (r: Result<(Header, Dictionary), FileError>)
    ensures
        same_source(*final(reader), *old(reader)),
        logged_prefix(old(reader).requests(), final(reader).requests(), front_plan(old(reader).image())),
        r is Ok ==> logged_all(old(reader).requests(), final(reader).requests(), front_plan(old(reader).image())),
        r matches Ok((h, d)) ==> {
            &&& spec_parse_header(old(reader).image()) == Some(header_view(h))
            &&& in_image(old(reader).image(), h.dictionary_offset, h.dictionary_len)
            &&& spec_dictionary(slice_of(old(reader).image(), h.dictionary_offset, h.dictionary_len), h.dict_codec)
                == Ok::<(Seq<Seq<u8>>, Seq<Seq<u8>>, Seq<Seq<u8>>, Seq<Seq<u8>>), FileError>(
                (d.shared_terms(), d.subject_terms(), d.object_terms(), d.predicate_terms()),
            )
        },
        old(reader).reliable() && openable(old(reader).image()) ==> r is Ok,
{
    let ghost img = reader.image();
    let ghost log0 = reader.requests();
    let header = crate::reader::read_header(reader);
    proof {
        reveal(logged_prefix);
    }
    let header = header?;
    let dict_bytes = read_region(reader, header.dictionary_offset, header.dictionary_len);
    proof {
        reveal(logged_prefix);
    }
    let dict_bytes = dict_bytes?;
    let dict = crate::dict::decode_dictionary_container(dict_bytes.as_slice(), header.dict_codec)?;
    Ok((header, dict))
}

/// A ranged open that made the front reads, the index read and the tail
/// reads made exactly the reads of its plan.
proof fn lemma_open_log(
    img: Seq<u8>,
    h: Header,
    log0: Seq<(u64, u64)>,
    l1: Seq<(u64, u64)>,
    mid: Seq<(u64, u64)>,
    end: Seq<(u64, u64)>,
)
    requires
        spec_parse_header(img) == Some(header_view(h)),
        logged_all(log0, l1, front_plan(img)),
        mid == l1.push((h.root_dir_offset, h.root_dir_len)),
        logged_all(mid, end, tail_plan(h)),
    ensures
        logged_all(log0, end, open_plan(img)),
{
    crate::header::lemma_scalar_fields(h);
    lemma_open_plan(img, h);
    let d = (h.dictionary_offset, h.dictionary_len);
    let rt = (h.root_dir_offset, h.root_dir_len);
    assert(front_plan(img) =~= seq![(0u64, HEADER_LEN as u64), d]);
    crate::reader::lemma_logged_split(l1, seq![rt], seq![]);
    assert(seq![rt] + seq![] =~= seq![rt]);
    assert(l1 + seq![rt] =~= mid);
    crate::reader::lemma_logged_concat(log0, l1, mid, front_plan(img), seq![rt]);
    crate::reader::lemma_logged_concat(log0, mid, end, front_plan(img) + seq![rt], tail_plan(h));
    assert(open_plan(img) =~= front_plan(img) + seq![rt] + tail_plan(h));
}

/// The read plan of a ranged open, over the fields of the header the image
/// starts with.
proof fn lemma_open_plan(img: Seq<u8>, h: Header)
    requires
        spec_parse_header(img) == Some(header_view(h)),
    ensures
        open_plan(img) == seq![(0u64, HEADER_LEN as u64)] + (seq![
            (h.dictionary_offset, h.dictionary_len),
            (h.root_dir_offset, h.root_dir_len),
        ] + opt_plan(h.pyramid_meta_offset, h.pyramid_meta_len) + opt_plan(h.text_index_offset, h.text_index_len)
            + opt_plan(h.named_graphs_offset, h.named_graphs_len)),
        search_plan(img) == seq![(0u64, HEADER_LEN as u64)] + (seq![(h.dictionary_offset, h.dictionary_len)]
            + opt_plan(h.text_index_offset, if h.text_index_len < 10 { h.text_index_len } else { 10 })),
{
    crate::header::lemma_scalar_fields(h);
}

impl Rete {
    /// Open through a range reader, fetching only the header and the
    /// sections it locates; the metadata section is not fetched.
    #[verifier::rlimit(100)]
    #[verifier::spinoff_prover]
    pub fn open_ranged<R: RangeReader>(reader: &mut R) -> (r: Result<Rete, FileError>)
        ensures
            same_source(*final(reader), *old(reader)),
            r is Ok ==> logged_all(old(reader).requests(), final(reader).requests(), open_plan(old(reader).image())),
            r matches Ok(v) ==> opened_sections(old(reader).image(), v) && v.metadata@.len() == 0,
            old(reader).reliable() && openable(old(reader).image()) ==> r is Ok,
    {
        let ghost img = reader.image();
        let ghost log0 = reader.requests();
        let front = read_open_front(reader);
        let (header, dict) = front?;
        proof {
            if reader.reliable() && openable(img) {
                lemma_openable_parts(img, header);
            }
        }
        let ghost l1 = reader.requests();
        let index_bytes = read_region(reader, header.root_dir_offset, header.root_dir_len)?;
        let (index, index_section_ranges) = decode_open_index(index_bytes.as_slice(), &header)?;
        let ghost mid = reader.requests();
        let tail = read_open_tail(reader, &header);
        let (pyramid, token_table_len, named_graphs) = tail?;
        proof {
            lemma_open_log(img, header, log0, l1, mid, reader.requests());
        }
        let tile_ranges = if header.version == LEGACY_FORMAT_VERSION {
            crate::indexfile::tile_file_ranges(index_bytes.as_slice(), header.root_dir_offset, &index_section_ranges)
        } else {
            crate::indexfile::family_tile_file_ranges(index_bytes.as_slice(), header.root_dir_offset)?
        };
        Ok(Rete {
            header,
            dict,
            index,
            index_section_ranges,
            tile_ranges,
            pyramid,
            token_table_len,
            named_graphs,
            metadata: Vec::new(),
        })
    }
}

/// A narrow view for search: the header, the subject half of the
/// dictionary (the shared and subject-only sections; the others are left
/// empty), and what the text-index and pyramid sections announce.
pub struct SearchView {
    pub header: Header,
    pub dict: Dictionary,
    pub token_table_len: Option<u64>,
}

/// The sections of a dictionary container, as plain values, with only the
/// first two decoded.
pub open spec fn subject_dictionary(bytes: Seq<u8>, codec: u8) -> Result<(Seq<Seq<u8>>, Seq<Seq<u8>>), FileError> {
    match crate::container::spec_decode_container(bytes, crate::codec::CODEC_NONE, 4) {
        Err(e) => Err(e),
        Ok(ps) => match crate::dict::spec_section_decode(ps[0], codec) {
            Err(e) => Err(e),
            Ok(a) => match crate::dict::spec_section_decode(ps[1], codec) {
                Err(e) => Err(e),
                Ok(b) => Ok((a, b)),
            },
        },
    }
}

/// The header parses, and the dictionary it locates lies inside the image
/// and its shared and subject-only sections decode.
pub open spec fn search_openable(img: Seq<u8>) -> bool {
    spec_parse_header(img) matches Some(v) && in_image(img, v.2[F_DICT_OFF as int], v.2[F_DICT_LEN as int])
        && subject_dictionary(slice_of(img, v.2[F_DICT_OFF as int], v.2[F_DICT_LEN as int]), v.2[F_DICT_CODEC as int] as u8)
        is Ok
}

impl SearchView {
    /// Open for search through a range reader: the header, the dictionary's
    /// shared and subject-only sections, and the text index's token-table
    /// length (one read of at most ten bytes).
    #[verifier::rlimit(60)]
    #[verifier::spinoff_prover]
    pub fn open_ranged<R: RangeReader>(reader: &mut R) -> (r: Result<SearchView, FileError>)
        ensures
            same_source(*final(reader), *old(reader)),
            logged_prefix(old(reader).requests(), final(reader).requests(), search_plan(old(reader).image())),
            r is Ok ==> logged_all(old(reader).requests(), final(reader).requests(), search_plan(old(reader).image())),
            r matches Ok(v) ==> {
                &&& spec_parse_header(old(reader).image()) == Some(header_view(v.header))
                &&& in_image(old(reader).image(), v.header.dictionary_offset, v.header.dictionary_len)
                &&& subject_dictionary(
                    slice_of(old(reader).image(), v.header.dictionary_offset, v.header.dictionary_len),
                    v.header.dict_codec,
                ) == Ok::<(Seq<Seq<u8>>, Seq<Seq<u8>>), FileError>((v.dict.shared_terms(), v.dict.subject_terms()))
                &&& v.dict.object_terms().len() == 0 && v.dict.predicate_terms().len() == 0
                &&& v.header.text_index_len == 0 ==> v.token_table_len is None
                &&& v.token_table_len matches Some(x) ==> ({
                    let n = if v.header.text_index_len < 10 { v.header.text_index_len } else { 10 };
                    token_table_len(slice_of(old(reader).image(), v.header.text_index_offset, n), v.header.text_index_len)
                        == Some(x)
                })
            },
            old(reader).reliable() ==> (r is Ok <==> search_openable(old(reader).image())),
    {
        let ghost img = reader.image();
        let ghost log0 = reader.requests();
        let ghost plan = search_plan(img);
        let header = crate::reader::read_header(reader);
        proof {
            crate::reader::lemma_logged_split(log0, seq![(0u64, HEADER_LEN as u64)], plan.skip(1));
            assert(plan =~= seq![(0u64, HEADER_LEN as u64)] + plan.skip(1));
            assert(reader.requests() =~= log0 + seq![(0u64, HEADER_LEN as u64)]);
        }
        let header = header?;
        let ghost d = (header.dictionary_offset, header.dictionary_len);
        let ghost tx = opt_plan(
            header.text_index_offset,
            if header.text_index_len < 10 { header.text_index_len } else { 10 },
        );
        let dict_bytes = read_region(reader, header.dictionary_offset, header.dictionary_len);
        proof {
            lemma_open_plan(img, header);
            let done = seq![(0u64, HEADER_LEN as u64), d];
            crate::reader::lemma_logged_split(log0, done, tx);
            assert(plan =~= done + tx);
            assert(reader.requests() =~= log0 + done);
        }
        let dict_bytes = dict_bytes?;
        let secs = crate::container::decode_container(dict_bytes.as_slice(), crate::codec::CODEC_NONE, 4)?;
        proof {
            crate::container::lemma_decode_container_len(dict_bytes@, crate::codec::CODEC_NONE, 4);
            let ps = secs@.map_values(|x: Vec<u8>| x@);
            assert(ps[0] == secs@[0]@ && ps[1] == secs@[1]@);
        }
        let shared = crate::dict::decode_section_terms(secs[0].as_slice(), header.dict_codec)?;
        let subjects = crate::dict::decode_section_terms(secs[1].as_slice(), header.dict_codec)?;
        let dict = Dictionary { shared, subjects, objects: Vec::new(), predicates: Vec::new() };
        let ghost mid = reader.requests();
        let token_table_len = crate::reader::read_text_index_token_table_len_ranged(reader, &header);
        proof {
            let done = seq![(0u64, HEADER_LEN as u64), d];
            crate::reader::lemma_logged_split(log0, done, seq![]);
            assert(done + seq![] =~= done);
            crate::reader::lemma_logged_concat(log0, mid, reader.requests(), done, tx);
        }
        Ok(SearchView { header, dict, token_table_len })
    }

    /// The file's header.
    pub fn header(&self) -> (r: &Header)
        ensures
            *r == self.header,
    {
        &self.header
    }

    /// Whether the file carries a text-index section.
    pub fn has_text_index(&self) -> (r: bool)
        ensures
            r == (self.header.text_index_len > 0),
    {
        self.header.text_index_len > 0
    }

    /// Whether the file carries a pyramid section.
    pub fn has_pyramid(&self) -> (r: bool)
        ensures
            r == (self.header.pyramid_meta_len > 0),
    {
        self.header.pyramid_meta_len > 0
    }

    /// Byte length of the text index's leading token table, as read at open.
    pub fn text_index_token_table_len(&self) -> (r: Option<u64>)
        ensures
            r == self.token_table_len,
    {
        self.token_table_len
    }
}

} // verus!
