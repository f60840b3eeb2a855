//! The term dictionary: four front-coded sections (terms that are both
//! subjects and objects, subject-only terms, object-only terms, predicates).
//! Subject ids number the shared terms from 1, then the subject-only terms;
//! object ids the shared terms, then the object-only terms; predicate ids
//! the predicates from 1.
use vstd::prelude::*;

use crate::extbuild::spec_restart_term;
use crate::header::{read_varints, varints_bytes};
use crate::codec::{compress, decompress, spec_decompress, FileError, CODEC_NONE};
use crate::varint::{canonicals_bytes, spec_read_uvarint, uvarint_bytes, write_canonicals, write_uvarint};
use vstd::string::StringSliceAdditionalSpecFns;

verus! {

/// Terms per front-coded restart run.
pub const RESTART_INTERVAL: u32 = 16;

/// The term dictionary.
#[derive(Clone, Debug)]
pub struct Dictionary {
    /// Terms used both as subjects and as objects.
    pub shared: Vec<Vec<u8>>,
    /// Terms used as subjects only.
    pub subjects: Vec<Vec<u8>>,
    /// Terms used as objects only.
    pub objects: Vec<Vec<u8>>,
    /// Predicates.
    pub predicates: Vec<Vec<u8>>,
}

/// A list of owned terms as byte strings.
pub open spec fn terms_of(v: Seq<Vec<u8>>) -> Seq<Seq<u8>> {
    v.map_values(|t: Vec<u8>| t@)
}

/// The term a node id names: ids `1..=|shared|` name the shared terms, the
/// next `|own|` ids the section's own terms.
pub open spec fn node_term(shared: Seq<Seq<u8>>, own: Seq<Seq<u8>>, id: int) -> Option<Seq<u8>> {
    if 1 <= id <= shared.len() {
        Some(shared[id - 1])
    } else if shared.len() < id <= shared.len() + own.len() {
        Some(own[id - shared.len() - 1])
    } else {
        None
    }
}

/// The term a predicate id names.
pub open spec fn pred_term(preds: Seq<Seq<u8>>, id: int) -> Option<Seq<u8>> {
    if 1 <= id <= preds.len() {
        Some(preds[id - 1])
    } else {
        None
    }
}

/// The term at position `i` of `v`, as an owned copy.
fn term_at(v: &Vec<Vec<u8>>, i: usize) -> (r: Vec<u8>)
    requires
        i < v@.len(),
    ensures
        r@ == v@[i as int]@,
{
    vstd::slice::slice_to_vec(v[i].as_slice())
}

/// The term a node id names, as an owned copy.
fn node_term_of(shared: &Vec<Vec<u8>>, own: &Vec<Vec<u8>>, id: u32) -> (r: Option<Vec<u8>>)
    ensures
        match node_term(terms_of(shared@), terms_of(own@), id as int) {
            Some(t) => r matches Some(v) && v@ == t,
            None => r is None,
        },
{
    let s = shared.len();
    if id >= 1 && (id as usize) <= s {
        Some(term_at(shared, (id - 1) as usize))
    } else if id as usize > s && (id as usize - s) <= own.len() {
        Some(term_at(own, id as usize - s - 1))
    } else {
        None
    }
}

/// The first position of `term` in `v`, if it occurs.
fn position_of(v: &Vec<Vec<u8>>, term: &[u8]) -> (r: Option<usize>)
    ensures
        r matches Some(i) ==> i < v@.len() && v@[i as int]@ == term@ && forall|j: int| 0 <= j < i ==> (#[trigger] v@[j])@ != term@,
        r is None ==> forall|i: int| 0 <= i < v@.len() ==> (#[trigger] v@[i])@ != term@,
{
    let n = v.len();
    let mut i: usize = 0;
    while i < n
        invariant
            n == v@.len(),
            i <= n,
            forall|j: int| 0 <= j < i ==> (#[trigger] v@[j])@ != term@,
        decreases n - i,
    {
        if bytes_equal(v[i].as_slice(), term) {
            return Some(i);
        }
        i = i + 1;
    }
    None
}

/// Whether two byte strings are equal.
pub fn bytes_equal(a: &[u8], b: &[u8]) -> (r: bool)
    ensures
        r == (a@ == b@),
{
    if a.len() != b.len() {
        return false;
    }
    let n = a.len();
    let mut i: usize = 0;
    while i < n
        invariant
            n == a@.len(),
            n == b@.len(),
            i <= n,
            forall|j: int| 0 <= j < i ==> a@[j] == b@[j],
        decreases n - i,
    {
        if a[i] != b[i] {
            return false;
        }
        i = i + 1;
    }
    proof {
        assert(a@ =~= b@);
    }
    true
}

/// The node id of `term` among the shared terms and then a section's own.
fn node_id_of(shared: &Vec<Vec<u8>>, own: &Vec<Vec<u8>>, term: &[u8]) -> (r: Option<u32>)
    ensures
        r matches Some(id) ==> node_term(terms_of(shared@), terms_of(own@), id as int) == Some(term@),
        r matches Some(id) ==> forall|j: int| 1 <= j < id ==> node_term(terms_of(shared@), terms_of(own@), j) != Some(term@),
        r is None ==> forall|id: int|
            1 <= id <= u32::MAX ==> node_term(terms_of(shared@), terms_of(own@), id) != Some(term@),
{
    let s = shared.len();
    match position_of(shared, term) {
        Some(i) => {
            if i >= 0xffff_ffff {
                proof {
                    assert forall|id: int| 1 <= id <= u32::MAX implies node_term(terms_of(shared@), terms_of(own@), id) != Some(term@) by {
                        assert(terms_of(shared@)[id - 1] == shared@[id - 1]@);
                    }
                }
                return None;
            }
            proof {
                assert forall|j: int| 1 <= j < i + 1 implies node_term(terms_of(shared@), terms_of(own@), j) != Some(term@) by {
                    assert(terms_of(shared@)[j - 1] == shared@[j - 1]@);
                }
            }
            return Some((i + 1) as u32);
        },
        None => {},
    }
    match position_of(own, term) {
        Some(i) => {
            if s >= 0xffff_ffff || i >= 0xffff_ffff - s {
                proof {
                    assert forall|id: int| 1 <= id <= u32::MAX implies node_term(terms_of(shared@), terms_of(own@), id) != Some(term@) by {
                        if 1 <= id <= s {
                            assert(terms_of(shared@)[id - 1] == shared@[id - 1]@);
                        } else if s < id <= s + own@.len() {
                            assert(terms_of(own@)[id - s - 1] == own@[id - s - 1]@);
                        }
                    }
                }
                return None;
            }
            proof {
                assert forall|j: int| 1 <= j < s + i + 1 implies node_term(terms_of(shared@), terms_of(own@), j) != Some(term@) by {
                    if j <= s {
                        assert(terms_of(shared@)[j - 1] == shared@[j - 1]@);
                    } else {
                        assert(terms_of(own@)[j - s - 1] == own@[j - s - 1]@);
                    }
                }
            }
            Some((s + i + 1) as u32)
        },
        None => {
            proof {
                assert forall|id: int| 1 <= id <= u32::MAX implies node_term(terms_of(shared@), terms_of(own@), id) != Some(term@) by {
                    if 1 <= id <= s {
                        assert(terms_of(shared@)[id - 1] == shared@[id - 1]@);
                    } else if s < id <= s + own@.len() {
                        assert(terms_of(own@)[id - s - 1] == own@[id - s - 1]@);
                    }
                }
            }
            None
        },
    }
}

/// Whether a term is a quoted triple: it starts with `<<`.
pub open spec fn is_quoted(t: Seq<u8>) -> bool {
    t.len() >= 2 && t[0] == 0x3c && t[1] == 0x3c
}

/// Whether some term of `v` is a quoted triple.
fn any_quoted(v: &Vec<Vec<u8>>) -> (r: bool)
    ensures
        r == exists|i: int| 0 <= i < v@.len() && is_quoted(#[trigger] v@[i]@),
{
    let n = v.len();
    let mut i: usize = 0;
    while i < n
        invariant
            n == v@.len(),
            i <= n,
            forall|j: int| 0 <= j < i ==> !is_quoted(#[trigger] v@[j]@),
        decreases n - i,
    {
        let t = v[i].as_slice();
        if t.len() >= 2 && t[0] == 0x3c && t[1] == 0x3c {
            return true;
        }
        i = i + 1;
    }
    false
}

impl Dictionary {
    /// The shared terms.
    pub open spec fn shared_terms(&self) -> Seq<Seq<u8>> {
        terms_of(self.shared@)
    }

    /// The subject-only terms.
    pub open spec fn subject_terms(&self) -> Seq<Seq<u8>> {
        terms_of(self.subjects@)
    }

    /// The object-only terms.
    pub open spec fn object_terms(&self) -> Seq<Seq<u8>> {
        terms_of(self.objects@)
    }

    /// The predicates.
    pub open spec fn predicate_terms(&self) -> Seq<Seq<u8>> {
        terms_of(self.predicates@)
    }

    /// The term subject id `id` names.
    pub open spec fn spec_subject_term(&self, id: int) -> Option<Seq<u8>> {
        node_term(self.shared_terms(), self.subject_terms(), id)
    }

    /// The term object id `id` names.
    pub open spec fn spec_object_term(&self, id: int) -> Option<Seq<u8>> {
        node_term(self.shared_terms(), self.object_terms(), id)
    }

    /// The term predicate id `id` names.
    pub open spec fn spec_predicate_term(&self, id: int) -> Option<Seq<u8>> {
        pred_term(self.predicate_terms(), id)
    }

    /// Total number of terms over the four sections.
    pub open spec fn spec_term_count(&self) -> int {
        (self.shared@.len() + self.subjects@.len() + self.objects@.len() + self.predicates@.len()) as int
    }

    /// The term of a subject id.
    pub fn subject_term(&self, id: u32) -> (r: Option<Vec<u8>>)
        ensures
            match self.spec_subject_term(id as int) {
                Some(t) => r matches Some(v) && v@ == t,
                None => r is None,
            },
    {
        node_term_of(&self.shared, &self.subjects, id)
    }

    /// The term of an object id.
    pub fn object_term(&self, id: u32) -> (r: Option<Vec<u8>>)
        ensures
            match self.spec_object_term(id as int) {
                Some(t) => r matches Some(v) && v@ == t,
                None => r is None,
            },
    {
        node_term_of(&self.shared, &self.objects, id)
    }

    /// The term of a predicate id.
    pub fn predicate_term(&self, id: u32) -> (r: Option<Vec<u8>>)
        ensures
            match self.spec_predicate_term(id as int) {
                Some(t) => r matches Some(v) && v@ == t,
                None => r is None,
            },
    {
        if id >= 1 && (id as usize) <= self.predicates.len() {
            Some(term_at(&self.predicates, (id - 1) as usize))
        } else {
            None
        }
    }

    /// The subject id of a term, if it is a subject.
    pub fn subject_id(&self, term: &str) -> (r: Option<u32>)
        ensures
            r matches Some(id) ==> self.spec_subject_term(id as int) == Some(term.spec_bytes()),
            r matches Some(id) ==> forall|j: int| 1 <= j < id ==> self.spec_subject_term(j) != Some(term.spec_bytes()),
            r is None ==> forall|id: int| 1 <= id <= u32::MAX ==> self.spec_subject_term(id) != Some(term.spec_bytes()),
    {
        node_id_of(&self.shared, &self.subjects, term.as_bytes())
    }

    /// The object id of a term, if it is an object.
    pub fn object_id(&self, term: &str) -> (r: Option<u32>)
        ensures
            r matches Some(id) ==> self.spec_object_term(id as int) == Some(term.spec_bytes()),
            r matches Some(id) ==> forall|j: int| 1 <= j < id ==> self.spec_object_term(j) != Some(term.spec_bytes()),
            r is None ==> forall|id: int| 1 <= id <= u32::MAX ==> self.spec_object_term(id) != Some(term.spec_bytes()),
    {
        node_id_of(&self.shared, &self.objects, term.as_bytes())
    }

    /// The predicate id of a term, if it is a predicate.
    pub fn predicate_id(&self, term: &str) -> (r: Option<u32>)
        ensures
            r matches Some(id) ==> self.spec_predicate_term(id as int) == Some(term.spec_bytes()),
            r matches Some(id) ==> forall|j: int| 1 <= j < id ==> self.spec_predicate_term(j) != Some(term.spec_bytes()),
            r is None ==> forall|id: int| 1 <= id <= u32::MAX ==> self.spec_predicate_term(id) != Some(term.spec_bytes()),
    {
        match position_of(&self.predicates, term.as_bytes()) {
            Some(i) => {
                if i >= 0xffff_ffff {
                    proof {
                        assert forall|id: int| 1 <= id <= u32::MAX implies self.spec_predicate_term(id) != Some(term.spec_bytes()) by {
                            assert(self.predicate_terms()[id - 1] == self.predicates@[id - 1]@);
                        }
                    }
                    return None;
                }
                proof {
                    assert forall|j: int| 1 <= j < i + 1 implies self.spec_predicate_term(j) != Some(term.spec_bytes()) by {
                        assert(self.predicate_terms()[j - 1] == self.predicates@[j - 1]@);
                    }
                }
                Some((i + 1) as u32)
            },
            None => {
                proof {
                    assert forall|id: int| 1 <= id <= u32::MAX implies self.spec_predicate_term(id) != Some(term.spec_bytes()) by {
                        if 1 <= id <= self.predicates@.len() {
                            assert(self.predicate_terms()[id - 1] == self.predicates@[id - 1]@);
                        }
                    }
                }
                None
            },
        }
    }

    /// The ids of a triple of terms, when every one of them is known.
    pub fn encode(&self, s: &str, p: &str, o: &str) -> (r: Option<(u32, u32, u32)>)
        ensures
            r matches Some((a, b, c)) ==> self.spec_subject_term(a as int) == Some(s.spec_bytes())
                && self.spec_predicate_term(b as int) == Some(p.spec_bytes()) && self.spec_object_term(c as int)
                == Some(o.spec_bytes()),
            r is None ==> (forall|id: int| 1 <= id <= u32::MAX ==> self.spec_subject_term(id) != Some(s.spec_bytes()))
                || (forall|id: int| 1 <= id <= u32::MAX ==> self.spec_predicate_term(id) != Some(p.spec_bytes()))
                || (forall|id: int| 1 <= id <= u32::MAX ==> self.spec_object_term(id) != Some(o.spec_bytes())),
    {
        let a = self.subject_id(s)?;
        let b = self.predicate_id(p)?;
        let c = self.object_id(o)?;
        Some((a, b, c))
    }

    /// Whether some subject or object term is a quoted triple (starts with `<<`).
    pub open spec fn spec_has_quoted_triples(&self) -> bool {
        exists|t: Seq<u8>|
            (self.shared_terms().contains(t) || self.subject_terms().contains(t) || self.object_terms().contains(t))
                && #[trigger] is_quoted(t)
    }

    /// Whether some subject or object term is a quoted triple.
    pub fn has_quoted_triples(&self) -> (r: bool)
        ensures
            r == self.spec_has_quoted_triples(),
    {
        let a = any_quoted(&self.shared);
        let b = any_quoted(&self.subjects);
        let c = any_quoted(&self.objects);
        proof {
            if !(a || b || c) {
                assert forall|t: Seq<u8>|
                    (self.shared_terms().contains(t) || self.subject_terms().contains(t) || self.object_terms().contains(t))
                        implies !#[trigger] is_quoted(t) by {
                    if self.shared_terms().contains(t) {
                        let i = choose|i: int| 0 <= i < self.shared_terms().len() && self.shared_terms()[i] == t;
                        assert(self.shared@[i]@ == t);
                    } else if self.subject_terms().contains(t) {
                        let i = choose|i: int| 0 <= i < self.subject_terms().len() && self.subject_terms()[i] == t;
                        assert(self.subjects@[i]@ == t);
                    } else {
                        let i = choose|i: int| 0 <= i < self.object_terms().len() && self.object_terms()[i] == t;
                        assert(self.objects@[i]@ == t);
                    }
                }
            } else if a {
                let i = choose|i: int| 0 <= i < self.shared@.len() && is_quoted(#[trigger] self.shared@[i]@);
                assert(self.shared_terms()[i] == self.shared@[i]@);
                assert(self.shared_terms().contains(self.shared@[i]@));
            } else if b {
                let i = choose|i: int| 0 <= i < self.subjects@.len() && is_quoted(#[trigger] self.subjects@[i]@);
                assert(self.subject_terms()[i] == self.subjects@[i]@);
                assert(self.subject_terms().contains(self.subjects@[i]@));
            } else {
                let i = choose|i: int| 0 <= i < self.objects@.len() && is_quoted(#[trigger] self.objects@[i]@);
                assert(self.object_terms()[i] == self.objects@[i]@);
                assert(self.object_terms().contains(self.objects@[i]@));
            }
        }
        a || b || c
    }

    /// The unified node id of a subject id: subject ids already are node ids.
    pub fn subject_node(&self, id: u32) -> (r: u32)
        ensures
            r == id,
    {
        id
    }

    /// The unified node id of object id `id`.
    pub open spec fn spec_object_node(&self, id: u32) -> u32 {
        (if id <= self.shared@.len() {
            id as int
        } else if id + self.subjects@.len() > u32::MAX {
            u32::MAX as int
        } else {
            id + self.subjects@.len()
        }) as u32
    }

    /// The unified node id of an object id: shared terms keep their id,
    /// object-only terms follow every subject-only term (saturating at the
    /// largest `u32`).
    pub fn object_node(&self, id: u32) -> (r: u32)
        ensures
            r == self.spec_object_node(id),
    {
        let s = self.shared.len();
        if id as usize <= s {
            id
        } else {
            let so = self.subjects.len();
            if so > (0xffff_ffffu32 - id) as usize {
                0xffff_ffff
            } else {
                id + so as u32
            }
        }
    }

    /// Unified node ids name terms one to one: an object id's node id equals
    /// a subject id only when both name the same shared term, two object ids
    /// share a node id only when they are the same id, and every node id lies
    /// among the subject, shared and object-only terms. So an object-only term
    /// never takes a subject's node id.
    pub proof fn lemma_object_nodes_unified(&self, o1: u32, o2: u32, s: u32)
        requires
            self.shared@.len() + self.subjects@.len() + self.objects@.len() <= u32::MAX,
            1 <= o1 <= self.shared@.len() + self.objects@.len(),
            1 <= o2 <= self.shared@.len() + self.objects@.len(),
            1 <= s <= self.shared@.len() + self.subjects@.len(),
        ensures
            self.spec_object_node(o1) == s <==> (o1 <= self.shared@.len() && o1 == s),
            self.spec_object_node(o1) == self.spec_object_node(o2) <==> o1 == o2,
            1 <= self.spec_object_node(o1) <= self.shared@.len() + self.subjects@.len() + self.objects@.len(),
    {
    }

    /// Total number of terms, saturating at the largest `u64`.
    pub fn term_count(&self) -> (r: u64)
        ensures
            r == if self.spec_term_count() > u64::MAX { u64::MAX as int } else { self.spec_term_count() },
    {
        let a = self.shared.len() as u64;
        let b = self.subjects.len() as u64;
        let c = self.objects.len() as u64;
        let d = self.predicates.len() as u64;
        a.saturating_add(b).saturating_add(c).saturating_add(d)
    }
}

/// Length of the longest common prefix of two byte strings.
pub open spec fn lcp(a: Seq<u8>, b: Seq<u8>) -> nat
    decreases a.len(),
{
    if a.len() == 0 || b.len() == 0 || a[0] != b[0] {
        0
    } else {
        1 + lcp(a.drop_first(), b.drop_first())
    }
}

/// The longest common prefix is a common prefix, and it is followed by
/// different bytes or by the end of one of the strings.
pub proof fn lemma_lcp(a: Seq<u8>, b: Seq<u8>)
    ensures
        lcp(a, b) <= a.len(),
        lcp(a, b) <= b.len(),
        forall|i: int| 0 <= i < lcp(a, b) ==> a[i] == b[i],
        lcp(a, b) < a.len() && lcp(a, b) < b.len() ==> a[lcp(a, b) as int] != b[lcp(a, b) as int],
    decreases a.len(),
{
    if !(a.len() == 0 || b.len() == 0 || a[0] != b[0]) {
        lemma_lcp(a.drop_first(), b.drop_first());
        assert forall|i: int| 0 <= i < lcp(a, b) implies a[i] == b[i] by {
            if i > 0 {
                assert(a[i] == a.drop_first()[i - 1]);
                assert(b[i] == b.drop_first()[i - 1]);
            }
        }
    }
}

/// A common prefix followed by different bytes or an end is the longest.
pub proof fn lemma_lcp_exact(a: Seq<u8>, b: Seq<u8>, n: int)
    requires
        0 <= n <= a.len(),
        n <= b.len(),
        forall|i: int| 0 <= i < n ==> a[i] == b[i],
        n == a.len() || n == b.len() || a[n] != b[n],
    ensures
        lcp(a, b) == n,
    decreases a.len(),
{
    if n > 0 {
        assert forall|i: int| 0 <= i < n - 1 implies a.drop_first()[i] == b.drop_first()[i] by {
            assert(a[i + 1] == b[i + 1]);
        }
        if n < a.len() && n < b.len() {
            assert(a.drop_first()[n - 1] == a[n]);
            assert(b.drop_first()[n - 1] == b[n]);
        }
        lemma_lcp_exact(a.drop_first(), b.drop_first(), n - 1);
        assert(a[0] == b[0]);
    }
}

/// Length of the longest common prefix of two byte strings.
pub fn common_prefix_bytes(a: &[u8], b: &[u8]) -> (r: usize)
    ensures
        r == lcp(a@, b@),
{
    let mut i: usize = 0;
    while i < a.len() && i < b.len() && a[i] == b[i]
        invariant
            i <= a@.len(),
            i <= b@.len(),
            forall|j: int| 0 <= j < i ==> a@[j] == b@[j],
        decreases a.len() - i,
    {
        i = i + 1;
    }
    proof {
        lemma_lcp_exact(a@, b@, i as int);
    }
    i
}

/// Number of restart runs of `n` terms at `k` terms per run.
pub open spec fn run_count(n: nat, k: nat) -> nat {
    if k == 0 {
        0
    } else {
        ((n + k - 1) / (k as int)) as nat
    }
}

/// Shared-prefix length entry `i` stores: none at a restart, else the
/// longest prefix it shares with the term before it.
pub open spec fn entry_shared(ts: Seq<Seq<u8>>, i: int, k: nat) -> nat {
    if i % (k as int) == 0 {
        0
    } else {
        lcp(ts[i - 1], ts[i])
    }
}

/// Entry `i` of a front-coded body: shared-prefix length, suffix length,
/// suffix.
pub open spec fn entry_bytes(ts: Seq<Seq<u8>>, i: int, k: nat) -> Seq<u8> {
    let sh = entry_shared(ts, i, k);
    uvarint_bytes(sh) + uvarint_bytes((ts[i].len() - sh) as nat) + ts[i].skip(sh as int)
}

/// The front-coded entries of the first `n` terms.
pub open spec fn body_bytes(ts: Seq<Seq<u8>>, k: nat, n: int) -> Seq<u8>
    decreases n,
{
    if n <= 0 {
        seq![]
    } else {
        body_bytes(ts, k, n - 1) + entry_bytes(ts, n - 1, k)
    }
}

/// Where each restart run starts within the body.
pub open spec fn run_offsets(ts: Seq<Seq<u8>>, k: nat) -> Seq<u64> {
    Seq::new(run_count(ts.len(), k), |r: int| body_bytes(ts, k, r * k).len() as u64)
}

/// A section's header: term count, restart interval, run count and the
/// body-relative run offsets.
pub open spec fn section_header(ts: Seq<Seq<u8>>, k: nat) -> Seq<u8> {
    uvarint_bytes(ts.len()) + uvarint_bytes(k) + uvarint_bytes(run_count(ts.len(), k)) + canonicals_bytes(
        run_offsets(ts, k),
    )
}

/// A raw dictionary section: its header, then the front-coded body.
pub open spec fn section_raw(ts: Seq<Seq<u8>>, k: nat) -> Seq<u8> {
    section_header(ts, k) + body_bytes(ts, k, ts.len() as int)
}

/// Lay out a raw front-coded section of `terms`, in the order given, with
/// a restart every [`RESTART_INTERVAL`] terms.
pub fn section_bytes(terms: &Vec<Vec<u8>>) -> (r: Vec<u8>)
    ensures
        r@ == section_raw(terms_of(terms@), RESTART_INTERVAL as nat),
{
    let ghost ts = terms_of(terms@);
    let ghost k = RESTART_INTERVAL as nat;
    let n = terms.len();
    let mut body: Vec<u8> = Vec::new();
    let mut offsets: Vec<u64> = Vec::new();
    let mut i: usize = 0;
    while i < n
        invariant
            n == terms@.len(),
            ts == terms_of(terms@),
            k == 16,
            i <= n,
            body@ == body_bytes(ts, k, i as int),
            offsets@.len() == run_count(i as nat, k),
            forall|r: int| 0 <= r < offsets@.len() ==> #[trigger] offsets@[r] == body_bytes(ts, k, r * k).len() as u64,
        decreases n - i,
    {
        let ghost before = body@;
        let term = terms[i].as_slice();
        proof {
            assert(ts[i as int] == term@);
        }
        if i % 16 == 0 {
            proof {
                assert(body_bytes(ts, k, (offsets@.len() as int) * k) == body@) by {
                    assert((offsets@.len() as int) * 16 == i) by (nonlinear_arith)
                        requires
                            offsets@.len() == ((i + 15) / 16) as nat,
                            i % 16 == 0;
                }
            }
            offsets.push(body.len() as u64);
            write_uvarint(&mut body, 0);
            write_uvarint(&mut body, term.len() as u64);
            body.extend_from_slice(term);
            proof {
                assert(entry_shared(ts, i as int, k) == 0);
                assert(term@.skip(0) =~= term@);
            }
        } else {
            let prev = terms[i - 1].as_slice();
            proof {
                assert(ts[i - 1] == prev@);
            }
            let sh = common_prefix_bytes(prev, term);
            proof {
                lemma_lcp(prev@, term@);
                assert(entry_shared(ts, i as int, k) == sh);
            }
            write_uvarint(&mut body, sh as u64);
            write_uvarint(&mut body, (term.len() - sh) as u64);
            body.extend_from_slice(vstd::slice::slice_subrange(term, sh, term.len()));
        }
        proof {
            assert(body@ =~= before + entry_bytes(ts, i as int, k));
            assert(offsets@.len() == run_count((i + 1) as nat, k)) by {
                assert(run_count((i + 1) as nat, 16) == (i + 16) / 16);
            }
        }
        i = i + 1;
    }
    proof {
        assert(offsets@ =~= run_offsets(ts, k));
    }
    let mut out: Vec<u8> = Vec::new();
    write_uvarint(&mut out, n as u64);
    write_uvarint(&mut out, 16);
    write_uvarint(&mut out, offsets.len() as u64);
    write_canonicals(&mut out, &offsets);
    out.extend_from_slice(body.as_slice());
    proof {
        assert(out@ =~= section_raw(ts, k));
    }
    out
}

/// A raw section's header: term count, restart interval and the offset of
/// every restart run, measured from the start of the raw section.
#[derive(Clone, Debug)]
pub struct SectionMeta {
    pub term_count: u32,
    pub restart_interval: u32,
    pub restart_offsets: Vec<u64>,
}

/// Front-coded runs hold shortest-form varints, which read back as the
/// same values as the run-together varints a header reader expects.
pub proof fn lemma_canonicals_are_varints(vs: Seq<u64>)
    ensures
        canonicals_bytes(vs) == varints_bytes(vs),
    decreases vs.len(),
{
    if vs.len() > 0 {
        crate::varint::lemma_canonicals_front(vs);
        lemma_canonicals_are_varints(vs.drop_first());
    } else {
        assert(canonicals_bytes(vs) =~= varints_bytes(vs));
    }
}

/// A raw section's header as plain values: term count, restart interval,
/// the body-relative run offsets and the header's length. The interval must
/// be positive, both counts must fit a `u32`, and the run count must be the
/// one the term count and interval imply.
pub open spec fn spec_meta(raw: Seq<u8>) -> Option<(u64, u64, Seq<u64>, nat)> {
    match read_varints(raw, 3) {
        None => None,
        Some((f, m)) => if f[1] == 0 || f[0] > u32::MAX || f[1] > u32::MAX || f[2] != run_count(
            f[0] as nat,
            f[1] as nat,
        ) {
            None
        } else {
            match read_varints(raw.skip(m as int), f[2] as nat) {
                None => None,
                Some((offs, m2)) => Some((f[0], f[1], offs, m + m2)),
            }
        },
    }
}

/// Run offsets measured from the start of the raw section, when they fit.
pub open spec fn absolute_offsets(rel: Seq<u64>, base: nat) -> Option<Seq<u64>> {
    if forall|r: int| 0 <= r < rel.len() ==> #[trigger] rel[r] + base <= u64::MAX {
        Some(rel.map_values(|o: u64| (o + base) as u64))
    } else {
        None
    }
}

/// The meta a header gives: [`spec_meta`] with the offsets made absolute.
pub open spec fn spec_section_meta(raw: Seq<u8>) -> Option<(u32, u32, Seq<u64>, nat)> {
    match spec_meta(raw) {
        None => None,
        Some((c, k, rel, h)) => match absolute_offsets(rel, h) {
            None => None,
            Some(abs) => Some((c as u32, k as u32, abs, h)),
        },
    }
}

/// Parse the header at the start of a raw section; also gives the header's
/// length.
pub fn parse_meta_prefix(raw: &[u8]) -> (r: Option<(SectionMeta, usize)>)
    ensures
        match spec_section_meta(raw@) {
            Some((c, k, abs, h)) => r matches Some((m, hl)) && m.term_count == c && m.restart_interval == k
                && m.restart_offsets@ == abs && hl == h,
            None => r is None,
        },
{
    proof {
        assert(raw@.skip(0) =~= raw@);
        crate::header::lemma_read_varints_bounds(raw@, 3);
    }
    let rlen = raw.len();
    let mut f: Vec<u64> = Vec::new();
    let m = match crate::header::read_fields(raw, 0, 3, &mut f) {
        Some(m) => m,
        None => {
            proof {
                assert(read_varints(raw@, 3) is None);
            }
            return None;
        },
    };
    proof {
        assert(read_varints(raw@.skip(0), 3) is Some);
        assert(read_varints(raw@, 3) is Some);
        assert(f@ =~= (read_varints(raw@, 3)->0).0);
        assert((read_varints(raw@, 3)->0).1 == m);
        assert(read_varints(raw@, 3) == Some((f@, m as nat)));
    }
    let count = f[0];
    let k = f[1];
    let nr = f[2];
    if k == 0 || count > 0xffff_ffff || k > 0xffff_ffff {
        return None;
    }
    let runs = (count + k - 1) / k;
    if nr != runs {
        return None;
    }
    proof {
        if count == 0 {
            assert(runs == 0) by (nonlinear_arith)
                requires
                    k >= 1,
                    count == 0,
                    runs == (count + k - 1) / (k as int),
            ;
        } else {
            assert(runs <= count) by (nonlinear_arith)
                requires
                    k >= 1,
                    count >= 1,
                    runs == (count + k - 1) / (k as int),
            {
                assert((count - 1) * (k - 1) >= 0);
                assert(count + k - 1 <= count * k);
            }
        }
    }
    let mut rel: Vec<u64> = Vec::new();
    let nr_us = nr as usize;
    assert(nr_us == nr);
    let end = match crate::header::read_fields(raw, m, nr_us, &mut rel) {
        Some(e) => e,
        None => {
            proof {
                assert(raw@.skip(0) =~= raw@);
                assert(read_varints(raw@.skip(m as int), nr as nat) is None);
                assert(f@[2] == nr && f@[0] == count && f@[1] == k);
                assert(spec_meta(raw@) is None);
            }
            return None;
        },
    };
    proof {
        crate::header::lemma_read_varints_bounds(raw@.skip(m as int), nr as nat);
        assert(rel@ =~= (read_varints(raw@.skip(m as int), nr as nat)->0).0);
        assert(spec_meta(raw@) == Some((count, k, rel@, end as nat)));
    }
    let n = rel.len();
    let mut abs: Vec<u64> = Vec::new();
    let mut i: usize = 0;
    while i < n
        invariant
            n == rel@.len(),
            i <= n,
            end <= raw@.len(),
            abs@ == rel@.take(i as int).map_values(|o: u64| (o + end) as u64),
            spec_meta(raw@) == Some((count, k, rel@, end as nat)),
            forall|j: int| 0 <= j < i ==> #[trigger] rel@[j] + end <= u64::MAX,
        decreases n - i,
    {
        if rel[i] > u64::MAX - end as u64 {
            proof {
                assert(absolute_offsets(rel@, end as nat) is None);
            }
            return None;
        }
        abs.push(rel[i] + end as u64);
        proof {
            assert(abs@ =~= rel@.take(i + 1).map_values(|o: u64| (o + end) as u64));
        }
        i = i + 1;
    }
    proof {
        assert(rel@.take(n as int) =~= rel@);
    }
    Some((SectionMeta { term_count: count as u32, restart_interval: k as u32, restart_offsets: abs }, end))
}

/// Parse a header fragment that must hold exactly one section header.
pub fn parse_meta_header_fragment(header: &[u8]) -> (r: Result<SectionMeta, ()>)
    ensures
        match spec_section_meta(header@) {
            Some((c, k, abs, h)) => if h == header@.len() {
                r matches Ok(m) && m.term_count == c && m.restart_interval == k && m.restart_offsets@ == abs
            } else {
                r is Err
            },
            None => r is Err,
        },
{
    match parse_meta_prefix(header) {
        Some((m, hl)) => if hl == header.len() {
            Ok(m)
        } else {
            Err(())
        },
        None => Err(()),
    }
}

/// The entry at `pos` of a front-coded body: its shared-prefix length, its
/// suffix and where it ends.
pub open spec fn read_entry(b: Seq<u8>, pos: int) -> Option<(u64, Seq<u8>, int)> {
    if pos < 0 || pos > b.len() {
        None
    } else {
        match spec_read_uvarint(b.skip(pos)) {
        None => None,
        Some((sh, a)) => match spec_read_uvarint(b.skip(pos + a)) {
            None => None,
            Some((sl, c)) => {
                let st = pos + a + c;
                if st + sl > b.len() {
                    None
                } else {
                    Some((sh, b.subrange(st, st + sl), st + sl))
                }
            },
        },
        }
    }
}

/// Decode terms `i..n` of a body from `pos`, `prev` being term `i - 1`.
/// Every restart entry must sit at its recorded (body-relative) offset and
/// share nothing, no entry may share more than its predecessor holds, and
/// the last entry must end the body.
pub open spec fn decode_terms(b: Seq<u8>, pos: int, prev: Seq<u8>, i: nat, n: nat, k: nat, offs: Seq<u64>) -> Option<
    Seq<Seq<u8>>,
>
    decreases n - i,
{
    if i >= n {
        if pos == b.len() {
            Some(seq![])
        } else {
            None
        }
    } else if i % k == 0 && (i / k >= offs.len() || offs[(i / k) as int] != pos) {
        None
    } else {
        match read_entry(b, pos) {
            None => None,
            Some((sh, suf, end)) => if (i % k == 0 && sh != 0) || sh > prev.len() {
                None
            } else {
                let t = prev.take(sh as int) + suf;
                match decode_terms(b, end, t, i + 1, n, k, offs) {
                    Some(rest) => Some(seq![t] + rest),
                    None => None,
                }
            },
        }
    }
}

/// Decode the `count` terms of a front-coded body whose restart runs start
/// at the body-relative offsets `rel`.
pub fn decode_body_terms(body: &[u8], count: u32, interval: u32, rel: &Vec<u64>) -> (r: Option<Vec<Vec<u8>>>)
    requires
        interval > 0,
    ensures
        match decode_terms(body@, 0, seq![], 0, count as nat, interval as nat, rel@) {
            Some(ts) => r matches Some(v) && terms_of(v@) == ts,
            None => r is None,
        },
{
    let ghost b = body@;
    let ghost k = interval as nat;
    let ghost n = count as nat;
    let ghost whole = decode_terms(b, 0, seq![], 0, n, k, rel@);
    let blen = body.len();
    let mut out: Vec<Vec<u8>> = Vec::new();
    let mut prev: Vec<u8> = Vec::new();
    let mut pos: usize = 0;
    let mut i: u32 = 0;
    proof {
        assert(terms_of(out@) + Seq::<Seq<u8>>::empty() =~= Seq::<Seq<u8>>::empty());
    }
    while i < count
        invariant
            b == body@,
            blen == b.len(),
            k == interval,
            k > 0,
            n == count,
            i <= count,
            pos <= blen,
            whole == decode_terms(b, 0, seq![], 0, n, k, rel@),
            whole == match decode_terms(b, pos as int, prev@, i as nat, n, k, rel@) {
                Some(rest) => Some(terms_of(out@) + rest),
                None => None,
            },
        decreases count - i,
    {
        let restart = i % interval == 0;
        if restart {
            let run = (i / interval) as usize;
            if run >= rel.len() || rel[run] != pos as u64 {
                return None;
            }
        }
        let (sh, a) = match crate::varint::read_uvarint_at(body, pos) {
            Some(x) => x,
            None => return None,
        };
        let (sl, c) = match crate::varint::read_uvarint_at(body, pos + a) {
            Some(x) => x,
            None => {
                proof {
                    assert(b.skip(pos as int).skip(a as int) =~= b.skip(pos + a));
                }
                return None;
            },
        };
        proof {
            assert(b.skip(pos as int).skip(a as int) =~= b.skip(pos + a));
        }
        let st = pos + a + c;
        if sl > (blen - st) as u64 {
            return None;
        }
        let end = st + sl as usize;
        if (restart && sh != 0) || sh > prev.len() as u64 {
            return None;
        }
        let mut t: Vec<u8> = vstd::slice::slice_to_vec(vstd::slice::slice_subrange(prev.as_slice(), 0, sh as usize));
        t.extend_from_slice(vstd::slice::slice_subrange(body, st, end));
        proof {
            assert(t@ =~= prev@.take(sh as int) + b.subrange(st as int, end as int));
        }
        let ghost before = terms_of(out@);
        out.push(t.clone());
        proof {
            let rest = decode_terms(b, end as int, t@, (i + 1) as nat, n, k, rel@);
            assert(terms_of(out@) =~= before.push(t@));
            if let Some(rs) = rest {
                assert(before + (seq![t@] + rs) =~= terms_of(out@) + rs);
            }
        }
        prev = t;
        pos = end;
        i = i + 1;
    }
    if pos != blen {
        return None;
    }
    proof {
        assert(terms_of(out@) + Seq::<Seq<u8>>::empty() =~= terms_of(out@));
    }
    Some(out)
}

/// The entries of a prefix of the terms are a prefix of the body.
pub proof fn lemma_body_prefix(ts: Seq<Seq<u8>>, k: nat, i: int, n: int)
    requires
        0 <= i <= n,
    ensures
        body_bytes(ts, k, i).len() <= body_bytes(ts, k, n).len(),
        body_bytes(ts, k, n).subrange(0, body_bytes(ts, k, i).len() as int) == body_bytes(ts, k, i),
    decreases n - i,
{
    if i < n {
        lemma_body_prefix(ts, k, i, n - 1);
        let a = body_bytes(ts, k, n - 1);
        let b = body_bytes(ts, k, n);
        assert(b == a + entry_bytes(ts, n - 1, k));
        assert(b.subrange(0, body_bytes(ts, k, i).len() as int) =~= a.subrange(0, body_bytes(ts, k, i).len() as int));
    } else {
        assert(body_bytes(ts, k, n).subrange(0, body_bytes(ts, k, n).len() as int) =~= body_bytes(ts, k, n));
    }
}

/// Reading entry `i` of the body gives its shared length and suffix back.
#[verifier::rlimit(40)]
#[verifier::spinoff_prover]
proof fn lemma_read_entry_at(ts: Seq<Seq<u8>>, k: nat, i: int, n: int)
    requires
        0 <= i < n,
        n <= ts.len(),
        k > 0,
        ts[i].len() <= u64::MAX,
    ensures
        read_entry(body_bytes(ts, k, n), body_bytes(ts, k, i).len() as int) == Some(
            (
                entry_shared(ts, i, k) as u64,
                ts[i].skip(entry_shared(ts, i, k) as int),
                body_bytes(ts, k, i + 1).len() as int,
            ),
        ),
{
    let b = body_bytes(ts, k, n);
    let p = body_bytes(ts, k, i).len() as int;
    let q = body_bytes(ts, k, i + 1).len() as int;
    lemma_body_prefix(ts, k, i + 1, n);
    let sh = entry_shared(ts, i, k);
    if i % (k as int) != 0 {
        lemma_lcp(ts[i - 1], ts[i]);
    }
    let e = entry_bytes(ts, i, k);
    let u1 = uvarint_bytes(sh);
    let u2 = uvarint_bytes((ts[i].len() - sh) as nat);
    let suf = ts[i].skip(sh as int);
    assert(body_bytes(ts, k, i + 1) == body_bytes(ts, k, i) + e);
    let tail = b.skip(q);
    assert(b.skip(p) =~= e + tail) by {
        assert(b.subrange(0, q) == body_bytes(ts, k, i) + e);
        assert forall|j: int| 0 <= j < b.skip(p).len() implies b.skip(p)[j] == (e + tail)[j] by {
            if j < e.len() {
                assert(b[p + j] == b.subrange(0, q)[p + j]);
            }
        }
    }
    crate::varint::lemma_read_write_uvarint(sh as u64, u2 + suf + tail);
    assert(b.skip(p) =~= u1 + (u2 + suf + tail));
    let a = u1.len();
    assert(b.skip(p).skip(a as int) =~= b.skip(p + a));
    assert((u1 + (u2 + suf + tail)).skip(a as int) =~= u2 + (suf + tail));
    assert(b.skip(p + a) =~= u2 + (suf + tail));
    crate::varint::lemma_read_write_uvarint((ts[i].len() - sh) as u64, suf + tail);
    let c = u2.len();
    assert(b.subrange(p + a + c, p + a + c + suf.len()) =~= suf) by {
        assert forall|j: int| 0 <= j < suf.len() implies b[p + a + c + j] == suf[j] by {
            assert(b.skip(p)[a + c + j] == b[p + a + c + j]);
        }
    }
}

/// The body law: decoding a front-coded body from entry `i` on gives back
/// the terms from `i` on.
pub proof fn lemma_decode_body_from(ts: Seq<Seq<u8>>, k: nat, i: int)
    requires
        0 <= i <= ts.len(),
        k > 0,
        forall|j: int| 0 <= j < ts.len() ==> (#[trigger] ts[j]).len() <= u64::MAX,
        body_bytes(ts, k, ts.len() as int).len() <= u64::MAX,
    ensures
        decode_terms(
            body_bytes(ts, k, ts.len() as int),
            body_bytes(ts, k, i).len() as int,
            if i == 0 { seq![] } else { ts[i - 1] },
            i as nat,
            ts.len(),
            k,
            run_offsets(ts, k),
        ) == Some(ts.skip(i)),
    decreases ts.len() - i,
{
    let n = ts.len() as int;
    let b = body_bytes(ts, k, n);
    let offs = run_offsets(ts, k);
    let prev: Seq<u8> = if i == 0 { seq![] } else { ts[i - 1] };
    if i == n {
        assert(ts.skip(i) =~= Seq::<Seq<u8>>::empty());
    } else {
        lemma_body_prefix(ts, k, i, n);
        lemma_body_prefix(ts, k, i + 1, n);
        lemma_read_entry_at(ts, k, i, n);
        lemma_decode_body_from(ts, k, i + 1);
        if i % (k as int) == 0 {
            let r = i / (k as int);
            assert(r * (k as int) == i) by (nonlinear_arith)
                requires
                    k > 0,
                    i % (k as int) == 0,
                    r == i / (k as int),
            ;
            assert(r < run_count(n as nat, k)) by (nonlinear_arith)
                requires
                    k > 0,
                    0 <= i < n,
                    r == i / (k as int),
                    r * (k as int) == i,
                    run_count(n as nat, k) == (n + k - 1) / (k as int),
            ;
            assert(offs.len() == run_count(n as nat, k));
            assert(offs[r] == body_bytes(ts, k, r * (k as int)).len() as u64);
            assert(offs[r] == body_bytes(ts, k, i).len());
        } else {
            lemma_lcp(ts[i - 1], ts[i]);
        }
        let sh = entry_shared(ts, i, k);
        assert(prev.take(sh as int) + ts[i].skip(sh as int) =~= ts[i]) by {
            if i % (k as int) != 0 {
                assert(i != 0) by {
                    if i == 0 {
                        assert(0int % (k as int) == 0);
                    }
                }
                assert(prev == ts[i - 1]);
                assert forall|j: int| 0 <= j < sh implies ts[i - 1][j] == ts[i][j] by {}
            }
        }
        assert(seq![ts[i]] + ts.skip(i + 1) =~= ts.skip(i));
    }
}

/// Body bytes per compressed dictionary chunk: whole runs are added to a
/// chunk while it is smaller than this.
pub const DICT_CHUNK_BUDGET: u64 = 65536;

/// The full term of the restart entry at `off` of a raw section.
pub fn run_first_term(raw: &[u8], off: usize) -> (r: Option<Vec<u8>>)
    requires
        off <= raw@.len(),
    ensures
        match spec_restart_term(raw@.skip(off as int)) {
            Some(t) => r matches Some(v) && v@ == t,
            None => r is None,
        },
{
    let rest = vstd::slice::slice_subrange(raw, off, raw.len());
    proof {
        assert(rest@ =~= raw@.skip(off as int));
    }
    crate::extbuild::read_restart_term(rest)
}

/// The last term of the entries from `pos` to `end`, `prev` being the term
/// before `pos` (and `first` whether `pos` starts a run, whose entry must
/// share nothing). Every entry must end by `end`, and at least one must
/// lie there.
pub open spec fn last_term_in(b: Seq<u8>, pos: int, end: int, prev: Seq<u8>, first: bool) -> Option<Seq<u8>>
    decreases end - pos,
{
    if pos >= end {
        if pos == end && !first {
            Some(prev)
        } else {
            None
        }
    } else {
        match read_entry(b, pos) {
            None => None,
            Some((sh, suf, e)) => if e <= pos || e > end || (first && sh != 0) || sh > prev.len() {
                None
            } else {
                last_term_in(b, e, end, prev.take(sh as int) + suf, false)
            },
        }
    }
}

/// The last term of the run starting at `off` of a raw section, which ends
/// at `end`.
pub fn run_last_term(raw: &[u8], off: usize, end: usize) -> (r: Option<Vec<u8>>)
    ensures
        match last_term_in(raw@, off as int, end as int, seq![], true) {
            Some(t) => r matches Some(v) && v@ == t,
            None => r is None,
        },
{
    let blen = raw.len();
    let mut pos = off;
    let mut prev: Vec<u8> = Vec::new();
    let mut first = true;
    let ghost goal = last_term_in(raw@, off as int, end as int, seq![], true);
    while pos < end
        invariant
            blen == raw@.len(),
            goal == last_term_in(raw@, pos as int, end as int, prev@, first),
            goal == last_term_in(raw@, off as int, end as int, seq![], true),
        decreases end - pos,
    {
        if pos > blen {
            return None;
        }
        let (sh, a) = match crate::varint::read_uvarint_at(raw, pos) {
            Some(x) => x,
            None => return None,
        };
        let (sl, c) = match crate::varint::read_uvarint_at(raw, pos + a) {
            Some(x) => x,
            None => {
                proof {
                    assert(raw@.skip(pos as int).skip(a as int) =~= raw@.skip(pos + a));
                }
                return None;
            },
        };
        proof {
            assert(raw@.skip(pos as int).skip(a as int) =~= raw@.skip(pos + a));
        }
        let st = pos + a + c;
        if sl > (blen - st) as u64 {
            return None;
        }
        let e = st + sl as usize;
        if e <= pos || e > end || (first && sh != 0) || sh > prev.len() as u64 {
            return None;
        }
        let mut t: Vec<u8> = vstd::slice::slice_to_vec(vstd::slice::slice_subrange(prev.as_slice(), 0, sh as usize));
        t.extend_from_slice(vstd::slice::slice_subrange(raw, st, e));
        proof {
            assert(t@ =~= prev@.take(sh as int) + raw@.subrange(st as int, e as int));
        }
        prev = t;
        pos = e;
        first = false;
    }
    if pos == end && !first {
        Some(prev)
    } else {
        None
    }
}

/// The shortest prefix of `b` past `a`: one byte beyond where they part.
pub open spec fn spec_shortest_separator(a: Seq<u8>, b: Seq<u8>) -> Seq<u8> {
    if lcp(a, b) + 1 <= b.len() {
        b.take((lcp(a, b) + 1) as int)
    } else {
        b
    }
}

/// The shortest routing separator between a chunk's predecessor's last term
/// `a` and its own first term `b`.
pub fn shortest_separator(a: &[u8], b: &[u8]) -> (r: Vec<u8>)
    ensures
        r@ == spec_shortest_separator(a@, b@),
{
    let n = common_prefix_bytes(a, b);
    proof {
        lemma_lcp(a@, b@);
    }
    if n < b.len() {
        vstd::slice::slice_to_vec(vstd::slice::slice_subrange(b, 0, n + 1))
    } else {
        vstd::slice::slice_to_vec(b)
    }
}

/// The run that starts the chunk after the one starting at run `r`, looking
/// from run `r2` on: the first run past the budget or the end.
pub open spec fn next_chunk_run(offs: Seq<u64>, r: int, r2: int) -> int
    decreases offs.len() - r2,
{
    if r2 >= offs.len() || offs[r2] - offs[r] >= DICT_CHUNK_BUDGET {
        r2
    } else {
        next_chunk_run(offs, r, r2 + 1)
    }
}

/// The next chunk starts past the run it is looked for from.
pub proof fn lemma_next_chunk_run(offs: Seq<u64>, r: int, r2: int)
    ensures
        next_chunk_run(offs, r, r2) >= r2,
        r2 <= offs.len() ==> next_chunk_run(offs, r, r2) <= offs.len(),
    decreases offs.len() - r2,
{
    if !(r2 >= offs.len() || offs[r2] - offs[r] >= DICT_CHUNK_BUDGET) {
        lemma_next_chunk_run(offs, r, r2 + 1);
    }
}

/// The first runs of the chunks from run `r` on.
pub open spec fn chunk_firsts(offs: Seq<u64>, r: int) -> Seq<int>
    decreases offs.len() - r,
{
    if r < 0 || r >= offs.len() {
        seq![]
    } else {
        proof {
            lemma_next_chunk_run(offs, r, r + 1);
        }
        seq![r] + chunk_firsts(offs, next_chunk_run(offs, r, r + 1))
    }
}

/// Where chunk `j` ends: where the next one starts, or the section's end.
pub open spec fn chunk_end(raw_len: nat, offs: Seq<u64>, fs: Seq<int>, j: int) -> int {
    if j + 1 < fs.len() {
        offs[fs[j + 1]] as int
    } else {
        raw_len as int
    }
}

/// The routing key of chunk `j`: none for the first chunk; else the shortest
/// separator past the previous chunk's last term, or this chunk's first term
/// itself when that last term does not decode.
pub open spec fn chunk_key(raw: Seq<u8>, offs: Seq<u64>, fs: Seq<int>, j: int) -> Seq<u8> {
    if j == 0 {
        seq![]
    } else {
        let first = match spec_restart_term(raw.skip(offs[fs[j]] as int)) {
            Some(t) => t,
            None => seq![],
        };
        match last_term_in(raw, offs[fs[j] - 1] as int, chunk_end(raw.len(), offs, fs, j - 1), seq![], true) {
            None => first,
            Some(pl) => spec_shortest_separator(pl, first),
        }
    }
}

/// The directory entry of chunk `j`: its first run as a delta from the
/// previous chunk's, its key, and its stored length.
pub open spec fn chunk_dir_entry(raw: Seq<u8>, offs: Seq<u64>, fs: Seq<int>, j: int) -> Seq<u8> {
    let key = chunk_key(raw, offs, fs, j);
    uvarint_bytes((fs[j] - if j == 0 { 0 } else { fs[j - 1] }) as nat) + uvarint_bytes(key.len()) + key + uvarint_bytes(
        (chunk_end(raw.len(), offs, fs, j) - offs[fs[j]]) as nat,
    )
}

/// The directory entries of the first `j` chunks.
pub open spec fn chunk_dir(raw: Seq<u8>, offs: Seq<u64>, fs: Seq<int>, j: int) -> Seq<u8>
    decreases j,
{
    if j <= 0 {
        seq![]
    } else {
        chunk_dir(raw, offs, fs, j - 1) + chunk_dir_entry(raw, offs, fs, j - 1)
    }
}

/// The bodies of the first `j` chunks, laid end to end.
pub open spec fn chunk_bodies(raw: Seq<u8>, offs: Seq<u64>, fs: Seq<int>, j: int) -> Seq<u8>
    decreases j,
{
    if j <= 0 {
        seq![]
    } else {
        chunk_bodies(raw, offs, fs, j - 1) + raw.subrange(offs[fs[j - 1]] as int, chunk_end(raw.len(), offs, fs, j - 1))
    }
}

/// The run offsets of a raw section's header, or none when it does not parse.
pub open spec fn raw_offsets(raw: Seq<u8>) -> Seq<u64> {
    match spec_section_meta(raw) {
        Some((_, _, abs, _)) => abs,
        None => seq![],
    }
}

/// The run offsets of a raw section lie, in order, within it.
pub open spec fn raw_offsets_ok(raw: Seq<u8>) -> bool {
    let offs = raw_offsets(raw);
    &&& forall|r: int| 0 <= r < offs.len() ==> #[trigger] offs[r] <= raw.len()
    &&& forall|a: int, b: int| 0 <= a <= b < offs.len() ==> #[trigger] offs[a] <= #[trigger] offs[b]
}

/// The chunked form of a raw section: the raw header, the chunk directory,
/// then the chunk bodies (stored as written, this build carrying no
/// compressor).
#[verifier::opaque]
pub open spec fn chunked_payload(raw: Seq<u8>) -> Seq<u8> {
    let offs = raw_offsets(raw);
    let body_start = if offs.len() > 0 { offs[0] as int } else { raw.len() as int };
    let header = raw.take(if body_start <= raw.len() { body_start } else { raw.len() as int });
    let fs = chunk_firsts(offs, 0);
    uvarint_bytes(header.len()) + header + uvarint_bytes(fs.len()) + chunk_dir(raw, offs, fs, fs.len() as int)
        + chunk_bodies(raw, offs, fs, fs.len() as int)
}

/// Chunks start at increasing runs, each a run of the section.
pub proof fn lemma_chunk_firsts(offs: Seq<u64>, r: int)
    ensures
        forall|i: int| 0 <= i < chunk_firsts(offs, r).len() ==> r <= #[trigger] chunk_firsts(offs, r)[i] < offs.len(),
        forall|i: int, j: int|
            0 <= i < j < chunk_firsts(offs, r).len() ==> #[trigger] chunk_firsts(offs, r)[i] < #[trigger] chunk_firsts(
                offs,
                r,
            )[j],
        0 <= r < offs.len() ==> chunk_firsts(offs, r).len() > 0 && chunk_firsts(offs, r)[0] == r,
    decreases offs.len() - r,
{
    if 0 <= r < offs.len() {
        let nx = next_chunk_run(offs, r, r + 1);
        lemma_next_chunk_run(offs, r, r + 1);
        lemma_chunk_firsts(offs, nx);
        let fs = chunk_firsts(offs, r);
        let rest = chunk_firsts(offs, nx);
        assert(fs == seq![r] + rest);
        assert forall|i: int| 0 <= i < fs.len() implies r <= #[trigger] fs[i] < offs.len() by {
            if i > 0 {
                assert(fs[i] == rest[i - 1]);
            }
        }
        assert forall|i: int, j: int| 0 <= i < j < fs.len() implies #[trigger] fs[i] < #[trigger] fs[j] by {
            assert(fs[j] == rest[j - 1]);
            if i > 0 {
                assert(fs[i] == rest[i - 1]);
            }
        }
    }
}

/// The chunk boundaries of a run table: the first run of every chunk.
fn chunk_first_runs(offs: &Vec<u64>) -> (r: Vec<usize>)
    requires
        forall|a: int, b: int| 0 <= a <= b < offs@.len() ==> #[trigger] offs@[a] <= #[trigger] offs@[b],
    ensures
        r@.map_values(|x: usize| x as int) == chunk_firsts(offs@, 0),
{
    let n = offs.len();
    let mut firsts: Vec<usize> = Vec::new();
    let mut r: usize = 0;
    while r < n
        invariant
            n == offs@.len(),
            r <= n,
            forall|a: int, b: int| 0 <= a <= b < offs@.len() ==> #[trigger] offs@[a] <= #[trigger] offs@[b],
            firsts@.map_values(|x: usize| x as int) + chunk_firsts(offs@, r as int) == chunk_firsts(offs@, 0),
        decreases n - r,
    {
        let start = offs[r];
        let mut r2 = r + 1;
        while r2 < n && offs[r2] - start < DICT_CHUNK_BUDGET
            invariant
                n == offs@.len(),
                r < r2 <= n,
                start == offs@[r as int],
                forall|a: int, b: int| 0 <= a <= b < offs@.len() ==> #[trigger] offs@[a] <= #[trigger] offs@[b],
                next_chunk_run(offs@, r as int, r2 as int) == next_chunk_run(offs@, r as int, r + 1),
            decreases n - r2,
        {
            r2 = r2 + 1;
        }
        let ghost before = firsts@.map_values(|x: usize| x as int);
        firsts.push(r);
        proof {
            lemma_next_chunk_run(offs@, r as int, r + 1);
            assert(firsts@.map_values(|x: usize| x as int) =~= before.push(r as int));
            assert(chunk_firsts(offs@, r as int) == seq![r as int] + chunk_firsts(offs@, r2 as int));
            assert(before + chunk_firsts(offs@, r as int) =~= firsts@.map_values(|x: usize| x as int) + chunk_firsts(offs@, r2 as int));
        }
        r = r2;
    }
    proof {
        assert(firsts@.map_values(|x: usize| x as int) + Seq::<int>::empty() =~= firsts@.map_values(|x: usize| x as int));
    }
    firsts
}

/// The option's bytes, as plain values.
pub open spec fn opt_view(x: Option<Vec<u8>>) -> Option<Seq<u8>> {
    match x {
        Some(v) => Some(v@),
        None => None,
    }
}

/// The routing key of a chunk starting at `start`, given the previous
/// chunk's last term.
fn key_for(raw: &[u8], start: usize, first_chunk: bool, prev_last: &Option<Vec<u8>>) -> (r: Vec<u8>)
    requires
        start <= raw@.len(),
    ensures
        r@ == if first_chunk {
            seq![]
        } else {
            let first = match spec_restart_term(raw@.skip(start as int)) {
                Some(t) => t,
                None => seq![],
            };
            match opt_view(*prev_last) {
                None => first,
                Some(pl) => spec_shortest_separator(pl, first),
            }
        },
{
    if first_chunk {
        return Vec::new();
    }
    let first = match run_first_term(raw, start) {
        Some(t) => t,
        None => Vec::new(),
    };
    match prev_last {
        None => first,
        Some(pl) => shortest_separator(pl.as_slice(), first.as_slice()),
    }
}

/// Encode one raw dictionary section in chunked form: the raw header, then
/// a directory of chunks of whole restart runs (each up to the chunk budget,
/// with its first run, routing key and stored length), then the chunk
/// bodies, each compressed with `codec` on its own.
#[verifier::rlimit(100)]
#[verifier::spinoff_prover]
pub fn encode_chunked_dict_section(raw: &[u8], codec: u8) -> (r: Vec<u8>)
    requires
        raw_offsets_ok(raw@),
    ensures
        r@ == chunked_payload(raw@),
{
    proof {
        reveal(chunked_payload);
    }
    let rlen = raw.len();
    let offs: Vec<u64> = match parse_meta_prefix(raw) {
        Some((m, _)) => m.restart_offsets,
        None => Vec::new(),
    };
    let ghost o = offs@;
    proof {
        assert(o == raw_offsets(raw@));
    }
    let n_runs = offs.len();
    let body_start: usize = if n_runs > 0 {
        offs[0] as usize
    } else {
        rlen
    };
    let header = vstd::slice::slice_subrange(raw, 0, body_start);
    let firsts = chunk_first_runs(&offs);
    let ghost fs = firsts@.map_values(|x: usize| x as int);
    proof {
        lemma_chunk_firsts(o, 0);
    }
    let nc = firsts.len();
    let mut out: Vec<u8> = Vec::new();
    write_uvarint(&mut out, header.len() as u64);
    out.extend_from_slice(header);
    write_uvarint(&mut out, nc as u64);
    let ghost head = out@;
    proof {
        assert(header@ == raw@.take(if (if o.len() > 0 { o[0] as int } else { rlen as int }) <= rlen { if o.len() > 0 { o[0] as int } else { rlen as int } } else { rlen as int }));
    }
    let mut prev_last: Option<Vec<u8>> = None;
    let mut j: usize = 0;
    while j < nc
        invariant
            rlen == raw@.len(),
            o == offs@,
            o == raw_offsets(raw@),
            raw_offsets_ok(raw@),
            n_runs == o.len(),
            nc == firsts@.len(),
            fs == firsts@.map_values(|x: usize| x as int),
            fs == chunk_firsts(o, 0),
            forall|i: int| 0 <= i < fs.len() ==> 0 <= #[trigger] fs[i] < o.len(),
            forall|i: int, i2: int| 0 <= i < i2 < fs.len() ==> #[trigger] fs[i] < #[trigger] fs[i2],
            j <= nc,
            out@ == head + chunk_dir(raw@, o, fs, j as int),
            0 < j < nc ==> opt_view(prev_last) == last_term_in(raw@, o[fs[j as int] - 1] as int, chunk_end(rlen as nat, o, fs, j - 1), seq![], true),
        decreases nc - j,
    {
        let first_run = firsts[j];
        let start = offs[first_run];
        let end: u64 = if j + 1 < nc {
            let f2 = firsts[j + 1];
            proof {
                assert(fs[j + 1] == f2 as int);
            }
            offs[f2]
        } else {
            rlen as u64
        };
        proof {
            assert(fs[j as int] == first_run);
            if j + 1 < nc {
                assert(fs[j + 1] == firsts@[j + 1]);
                assert(fs[j as int] < fs[j + 1]);
            }
            assert(end == chunk_end(rlen as nat, o, fs, j as int));
            assert(start <= end);
        }
        let key = key_for(raw, start as usize, j == 0, &prev_last);
        proof {
            assert(key@ == chunk_key(raw@, o, fs, j as int));
        }
        if j + 1 < nc {
            let last_off = offs[firsts[j + 1] - 1];
            proof {
                assert(fs[j + 1] >= 1) by {
                    assert(fs[j as int] < fs[j + 1]);
                }
            }
            prev_last = run_last_term(raw, last_off as usize, end as usize);
            proof {
                assert(opt_view(prev_last) == last_term_in(raw@, o[fs[j + 1] - 1] as int, chunk_end(rlen as nat, o, fs, j as int), seq![], true));
            }
        }
        let ghost before = out@;
        let delta = if j == 0 {
            first_run
        } else {
            proof {
                assert(fs[j - 1] < fs[j as int]);
            }
            first_run - firsts[j - 1]
        };
        write_uvarint(&mut out, delta as u64);
        write_uvarint(&mut out, key.len() as u64);
        out.extend_from_slice(key.as_slice());
        write_uvarint(&mut out, end - start);
        proof {
            assert(out@ =~= before + chunk_dir_entry(raw@, o, fs, j as int));
        }
        j = j + 1;
    }
    let ghost dir_end = out@;
    let mut c: usize = 0;
    while c < nc
        invariant
            rlen == raw@.len(),
            o == offs@,
            o == raw_offsets(raw@),
            raw_offsets_ok(raw@),
            nc == firsts@.len(),
            fs == firsts@.map_values(|x: usize| x as int),
            forall|i: int| 0 <= i < fs.len() ==> 0 <= #[trigger] fs[i] < o.len(),
            forall|i: int, i2: int| 0 <= i < i2 < fs.len() ==> #[trigger] fs[i] < #[trigger] fs[i2],
            c <= nc,
            out@ == dir_end + chunk_bodies(raw@, o, fs, c as int),
        decreases nc - c,
    {
        let start = offs[firsts[c]];
        let end: u64 = if c + 1 < nc {
            let f2 = firsts[c + 1];
            proof {
                assert(fs[c + 1] == f2 as int);
            }
            offs[f2]
        } else {
            rlen as u64
        };
        proof {
            assert(fs[c as int] == firsts@[c as int]);
            if c + 1 < nc {
                assert(fs[c + 1] == firsts@[c + 1]);
                assert(fs[c as int] < fs[c + 1]);
            }
            assert(start <= end);
        }
        let body = compress(codec, vstd::slice::slice_subrange(raw, start as usize, end as usize));
        let ghost before = out@;
        out.extend_from_slice(body.as_slice());
        proof {
            assert(out@ =~= before + raw@.subrange(start as int, end as int));
        }
        c = c + 1;
    }
    out
}

/// A parsed chunk directory entry: the chunk's first run, its routing key,
/// where that run starts in the raw section, and the chunk's stored byte
/// range within the section payload.
#[derive(Clone, Debug)]
pub struct DictChunkEntry {
    pub first_run: usize,
    pub key: Vec<u8>,
    pub body_start: u64,
    pub start: u64,
    pub end: u64,
}

/// The entry as plain values.
pub open spec fn chunk_entry_view(e: DictChunkEntry) -> (int, Seq<u8>, u64, u64, u64) {
    (e.first_run as int, e.key@, e.body_start, e.start, e.end)
}

/// The varint at `pos` and the position after it.
pub open spec fn take_varint(b: Seq<u8>, pos: int) -> Option<(u64, int)> {
    if 0 <= pos <= b.len() {
        match spec_read_uvarint(b.skip(pos)) {
            Some((v, n)) => Some((v, pos + n)),
            None => None,
        }
    } else {
        None
    }
}

/// Read the varint at `*pos`, advancing past it.
pub fn take_at(bytes: &[u8], pos: &mut usize, what: &'static str) -> (r: Result<u64, FileError>)
    ensures
        match take_varint(bytes@, *old(pos) as int) {
            Some((v, p)) => r == Ok::<u64, FileError>(v) && *final(pos) == p,
            None => r == Err::<u64, FileError>(FileError::Container(what)),
        },
        r is Ok ==> *old(pos) < *final(pos) <= bytes@.len(),
{
    let blen = bytes.len();
    if *pos > blen {
        return Err(FileError::Container(what));
    }
    match crate::varint::read_uvarint_at(bytes, *pos) {
        Some((v, n)) => {
            *pos = *pos + n;
            Ok(v)
        },
        None => Err(FileError::Container(what)),
    }
}

/// The entries `i..n` of a chunk directory from `pos`: first run (a delta
/// from the previous chunk's), key and stored length each, checked against
/// the run table `offs` of `expected` runs; as (first run, key, run start,
/// stored length), with the position after them.
pub open spec fn dir_entries(
    b: Seq<u8>,
    pos: int,
    i: nat,
    n: nat,
    prev: Option<u64>,
    expected: u64,
    offs: Seq<u64>,
) -> Result<(Seq<(u64, Seq<u8>, u64, u64)>, int), FileError>
    decreases n - i,
{
    if i >= n {
        Ok((seq![], pos))
    } else {
        match take_varint(b, pos) {
            None => Err(FileError::Container("truncated dict chunk directory")),
            Some((drun, p1)) => match take_varint(b, p1) {
                None => Err(FileError::Container("truncated dict chunk directory")),
                Some((klen, p2)) => if klen > usize::MAX {
                    Err(FileError::Container("dict chunk term length too large"))
                } else if p2 + klen > usize::MAX {
                    Err(FileError::Container("dict directory offset overflows"))
                } else if p2 + klen > b.len() {
                    Err(FileError::Container("truncated dict chunk key"))
                } else {
                    let key = b.subrange(p2, p2 + klen);
                    match take_varint(b, p2 + klen) {
                        None => Err(FileError::Container("truncated dict chunk directory")),
                        Some((clen, p4)) => {
                            let base: u64 = match prev {
                                Some(q) => q,
                                None => 0,
                            };
                            if clen > isize::MAX {
                                Err(FileError::Container("dict chunk length too large"))
                            } else if base + drun > u64::MAX {
                                Err(FileError::Container("dict chunk run overflows"))
                            } else if (i == 0 && base + drun != 0) || base + drun >= expected || (prev matches Some(q) && base + drun <= q) {
                                Err(FileError::Container("dict chunk run outside restart table"))
                            } else if base + drun > u32::MAX {
                                Err(FileError::Container("dict chunk run exceeds u32"))
                            } else if base + drun >= offs.len() {
                                Err(FileError::Container("dict chunk run out of range"))
                            } else {
                                let fr = (base + drun) as u64;
                                match dir_entries(b, p4, i + 1, n, Some(fr), expected, offs) {
                                    Err(e) => Err(e),
                                    Ok((rest, end)) => Ok((seq![(fr, key, offs[fr as int], clen)] + rest, end)),
                                }
                            }
                        },
                    }
                },
            },
        }
    }
}

/// The stored byte ranges of chunks of lengths `lens`, laid end to end from
/// `start`, each ending within `total`.
pub open spec fn chunk_ranges(lens: Seq<u64>, start: int, total: u64) -> Option<Seq<(u64, u64)>>
    decreases lens.len(),
{
    if lens.len() == 0 {
        Some(seq![])
    } else if start + lens[0] > total {
        None
    } else {
        match chunk_ranges(lens.drop_first(), start + lens[0], total) {
            Some(rest) => Some(seq![(start as u64, (start + lens[0]) as u64)] + rest),
            None => None,
        }
    }
}

/// What [`parse_chunked_dict_dir`] gives: the section's meta (term count,
/// interval, absolute run offsets) and its chunks as (first run, key, run
/// start, stored start, stored end), or the first failure.
pub open spec fn spec_chunked_dir(b: Seq<u8>, total: u64) -> Result<
    ((u32, u32, Seq<u64>), Seq<(int, Seq<u8>, u64, u64, u64)>),
    FileError,
> {
    match take_varint(b, 0) {
        None => Err(FileError::Container("truncated dict chunk directory")),
        Some((hl, p)) => if hl > usize::MAX {
            Err(FileError::Container("dict header length too large"))
        } else if p + hl > usize::MAX {
            Err(FileError::Container("dict directory offset overflows"))
        } else if p + hl > b.len() {
            Err(FileError::Container("truncated dict header"))
        } else {
            match spec_section_meta(b.subrange(p, p + hl)) {
                None => Err(FileError::Container("malformed dict header")),
                Some((c, k, abs, h)) => if h != hl {
                    Err(FileError::Container("malformed dict header"))
                } else {
                    match take_varint(b, p + hl) {
                        None => Err(FileError::Container("truncated dict chunk directory")),
                        Some((nc, p2)) => {
                            let expected = run_count(c as nat, k as nat);
                            if nc > usize::MAX {
                                Err(FileError::Container("dict chunk count too large"))
                            } else if (expected == 0) != (nc == 0) {
                                Err(FileError::Container("dict chunk count disagrees with restart table"))
                            } else if nc > (b.len() - p2) / 3 {
                                Err(FileError::Container("dict chunk count exceeds directory"))
                            } else {
                                match dir_entries(b, p2, 0, nc as nat, None, expected as u64, abs) {
                                    Err(e) => Err(e),
                                    Ok((es, p3)) => match chunk_ranges(es.map_values(|e: (u64, Seq<u8>, u64, u64)| e.3), p3, total) {
                                        None => Err(FileError::Container("dict chunk overruns section")),
                                        Some(rs) => Ok(
                                            (
                                                (c, k, abs),
                                                Seq::new(
                                                    es.len(),
                                                    |j: int| (es[j].0 as int, es[j].1, es[j].2, rs[j].0, rs[j].1),
                                                ),
                                            ),
                                        ),
                                    },
                                }
                            }
                        },
                    }
                },
            }
        },
    }
}

/// The parsed entries as plain values.
pub open spec fn infos_view(v: Seq<(u64, Vec<u8>, u64, u64)>) -> Seq<(u64, Seq<u8>, u64, u64)> {
    v.map_values(|e: (u64, Vec<u8>, u64, u64)| (e.0, e.1@, e.2, e.3))
}

/// Parse the chunk directory entries `nc` of them from `*pos`.
#[verifier::rlimit(50)]
fn parse_dir_entries(bytes: &[u8], pos: &mut usize, nc: u64, expected: u64, offs: &Vec<u64>) -> (r: Result<
    Vec<(u64, Vec<u8>, u64, u64)>,
    FileError,
>)
    requires
        *old(pos) <= bytes@.len(),
    ensures
        match dir_entries(bytes@, *old(pos) as int, 0, nc as nat, None, expected, offs@) {
            Ok((es, e)) => r matches Ok(v) && infos_view(v@) == es && *final(pos) == e,
            Err(e) => r == Err::<Vec<(u64, Vec<u8>, u64, u64)>, FileError>(e),
        },
        r matches Ok(v) ==> forall|x: int| 0 <= x < v@.len() ==> #[trigger] v@[x].0 <= u32::MAX,
        r is Ok ==> *old(pos) <= *final(pos) <= bytes@.len(),
{
    let ghost b = bytes@;
    let ghost whole = dir_entries(b, *pos as int, 0, nc as nat, None, expected, offs@);
    let blen = bytes.len();
    let mut out: Vec<(u64, Vec<u8>, u64, u64)> = Vec::new();
    let mut prev: Option<u64> = None;
    let mut i: u64 = 0;
    proof {
        assert(infos_view(out@) =~= Seq::<(u64, Seq<u8>, u64, u64)>::empty());
        if let Ok((es, e)) = whole {
            assert(Seq::<(u64, Seq<u8>, u64, u64)>::empty() + es =~= es);
        }
    }
    while i < nc
        invariant
            b == bytes@,
            blen == b.len(),
            i <= nc,
            whole == match dir_entries(b, *pos as int, i as nat, nc as nat, prev, expected, offs@) {
                Ok((rest, e)) => Ok((infos_view(out@) + rest, e)),
                Err(e) => Err::<(Seq<(u64, Seq<u8>, u64, u64)>, int), FileError>(e),
            },
            whole == dir_entries(bytes@, *old(pos) as int, 0, nc as nat, None, expected, offs@),
            forall|x: int| 0 <= x < out@.len() ==> #[trigger] out@[x].0 <= u32::MAX,
            *old(pos) <= *pos <= blen,
        decreases nc - i,
    {
        let drun = take_at(bytes, pos, "truncated dict chunk directory")?;
        let klen = take_at(bytes, pos, "truncated dict chunk directory")?;
        if klen > usize::MAX as u64 {
            return Err(FileError::Container("dict chunk term length too large"));
        }
        let kl = klen as usize;
        if kl > usize::MAX - *pos {
            return Err(FileError::Container("dict directory offset overflows"));
        }
        let key_end = *pos + kl;
        if key_end > blen {
            return Err(FileError::Container("truncated dict chunk key"));
        }
        let key = vstd::slice::slice_to_vec(vstd::slice::slice_subrange(bytes, *pos, key_end));
        *pos = key_end;
        let clen = take_at(bytes, pos, "truncated dict chunk directory")?;
        let base: u64 = match prev {
            Some(q) => q,
            None => 0,
        };
        if clen > isize::MAX as u64 {
            return Err(FileError::Container("dict chunk length too large"));
        }
        if drun > u64::MAX - base {
            return Err(FileError::Container("dict chunk run overflows"));
        }
        let fr = base + drun;
        let later = match prev {
            Some(q) => fr <= q,
            None => false,
        };
        if (i == 0 && fr != 0) || fr >= expected || later {
            return Err(FileError::Container("dict chunk run outside restart table"));
        }
        if fr > 0xffff_ffff {
            return Err(FileError::Container("dict chunk run exceeds u32"));
        }
        if fr >= offs.len() as u64 {
            return Err(FileError::Container("dict chunk run out of range"));
        }
        let body_start = offs[fr as usize];
        let ghost before = infos_view(out@);
        let ghost before_raw = out@;
        out.push((fr, key, body_start, clen));
        proof {
            assert forall|x: int| 0 <= x < out@.len() implies #[trigger] out@[x].0 <= u32::MAX by {
                if x < before_raw.len() {
                    assert(out@[x] == before_raw[x]);
                }
            }
        }
        proof {
            assert(infos_view(out@) =~= before.push((fr, key@, body_start, clen)));
            let nx = dir_entries(b, *pos as int, (i + 1) as nat, nc as nat, Some(fr), expected, offs@);
            if let Ok((rest, e)) = nx {
                assert(before + (seq![(fr, key@, body_start, clen)] + rest) =~= infos_view(out@) + rest);
            }
        }
        prev = Some(fr);
        i = i + 1;
    }
    proof {
        assert(infos_view(out@) + Seq::<(u64, Seq<u8>, u64, u64)>::empty() =~= infos_view(out@));
    }
    Ok(out)
}

/// Parse a chunked dictionary section's header and chunk directory (not
/// the chunks). `bytes` may be a prefix of the payload; stored ranges must
/// end within `total_len`.
#[verifier::rlimit(50)]
pub fn parse_chunked_dict_dir(bytes: &[u8], total_len: u64) -> (r: Result<(SectionMeta, Vec<DictChunkEntry>), FileError>)
    ensures
        match spec_chunked_dir(bytes@, total_len) {
            Ok((m, es)) => r matches Ok((meta, v)) && (meta.term_count, meta.restart_interval, meta.restart_offsets@) == m
                && v@.map_values(|e: DictChunkEntry| chunk_entry_view(e)) == es,
            Err(e) => r == Err::<(SectionMeta, Vec<DictChunkEntry>), FileError>(e),
        },
{
    let blen = bytes.len();
    let mut pos: usize = 0;
    let hl = take_at(bytes, &mut pos, "truncated dict chunk directory")?;
    if hl > usize::MAX as u64 {
        return Err(FileError::Container("dict header length too large"));
    }
    let hlu = hl as usize;
    if hlu > usize::MAX - pos {
        return Err(FileError::Container("dict directory offset overflows"));
    }
    let header_end = pos + hlu;
    if header_end > blen {
        return Err(FileError::Container("truncated dict header"));
    }
    let header = vstd::slice::slice_subrange(bytes, pos, header_end);
    let meta = match parse_meta_header_fragment(header) {
        Ok(m) => m,
        Err(_) => return Err(FileError::Container("malformed dict header")),
    };
    pos = header_end;
    let nc = take_at(bytes, &mut pos, "truncated dict chunk directory")?;
    if nc > usize::MAX as u64 {
        return Err(FileError::Container("dict chunk count too large"));
    }
    let c = meta.term_count as u64;
    let k = meta.restart_interval as u64;
    proof {
        assert(k > 0);
    }
    let expected = (c + k - 1) / k;
    if (expected == 0) != (nc == 0) {
        return Err(FileError::Container("dict chunk count disagrees with restart table"));
    }
    if nc as usize > (blen - pos) / 3 {
        return Err(FileError::Container("dict chunk count exceeds directory"));
    }
    let infos = parse_dir_entries(bytes, &mut pos, nc, expected, &meta.restart_offsets)?;
    let ghost es = infos_view(infos@);
    let ghost lens = es.map_values(|e: (u64, Seq<u8>, u64, u64)| e.3);
    let ghost whole = chunk_ranges(lens, pos as int, total_len);
    let ghost m3 = (meta.term_count, meta.restart_interval, meta.restart_offsets@);
    proof {
        assert(spec_chunked_dir(bytes@, total_len) == match whole {
            None => Err(FileError::Container("dict chunk overruns section")),
            Some(rs) => Ok((m3, Seq::new(es.len(), |x: int| (es[x].0 as int, es[x].1, es[x].2, rs[x].0, rs[x].1)))),
        });
    }
    let n = infos.len();
    let mut start: u64 = pos as u64;
    let mut out: Vec<DictChunkEntry> = Vec::new();
    let mut j: usize = 0;
    proof {
        assert(lens.skip(0) =~= lens);
        assert(Seq::<(u64, u64)>::empty() + Seq::<(u64, u64)>::empty() =~= Seq::<(u64, u64)>::empty());
    }
    let ghost done: Seq<(u64, u64)> = seq![];
    while j < n
        invariant
            n == infos@.len(),
            es == infos_view(infos@),
            lens == es.map_values(|e: (u64, Seq<u8>, u64, u64)| e.3),
            j <= n,
            done.len() == j,
            out@.len() == j,
            whole == match chunk_ranges(lens.skip(j as int), start as int, total_len) {
                Some(rest) => Some(done + rest),
                None => None,
            },
            forall|x: int| 0 <= x < j ==> #[trigger] chunk_entry_view(out@[x]) == (es[x].0 as int, es[x].1, es[x].2, done[x].0, done[x].1),
            forall|x: int| 0 <= x < infos@.len() ==> #[trigger] infos@[x].0 <= u32::MAX,
            spec_chunked_dir(bytes@, total_len) == match whole {
                None => Err(FileError::Container("dict chunk overruns section")),
                Some(rs) => Ok((m3, Seq::new(es.len(), |x: int| (es[x].0 as int, es[x].1, es[x].2, rs[x].0, rs[x].1)))),
            },
        decreases n - j,
    {
        let len = infos[j].3;
        proof {
            assert(lens.skip(j as int)[0] == len);
            assert(lens.skip(j as int).drop_first() =~= lens.skip(j + 1));
        }
        if len > total_len || start > total_len - len {
            return Err(FileError::Container("dict chunk overruns section"));
        }
        let end = start + len;
        let fr = infos[j].0;
        let key = vstd::slice::slice_to_vec(infos[j].1.as_slice());
        let body_start = infos[j].2;
        proof {
            assert(fr == es[j as int].0 && key@ == es[j as int].1 && body_start == es[j as int].2);
        }
        let ghost before = out@;
        out.push(DictChunkEntry { first_run: fr as usize, key, body_start, start, end });
        proof {
            let nd = done.push((start, end));
            if let Some(rest) = chunk_ranges(lens.skip(j + 1), end as int, total_len) {
                assert(done + (seq![(start, end)] + rest) =~= nd + rest);
            }
            assert forall|x: int| 0 <= x < j + 1 implies #[trigger] chunk_entry_view(out@[x]) == (es[x].0 as int, es[x].1, es[x].2, nd[x].0, nd[x].1) by {
                if x < j {
                    assert(out@[x] == before[x]);
                }
            }
            done = nd;
        }
        start = end;
        j = j + 1;
    }
    proof {
        assert(lens.skip(n as int) =~= Seq::<u64>::empty());
        assert(done + Seq::<(u64, u64)>::empty() =~= done);
        assert(out@.map_values(|e: DictChunkEntry| chunk_entry_view(e)) =~= Seq::new(
            es.len(),
            |x: int| (es[x].0 as int, es[x].1, es[x].2, done[x].0, done[x].1),
        ));
    }
    Ok((meta, out))
}

/// Three varints run together read as three.
pub(crate) proof fn lemma_three_varints(a: nat, b: nat, c: nat)
    requires
        a <= u64::MAX,
        b <= u64::MAX,
        c <= u64::MAX,
    ensures
        varints_bytes(seq![a as u64, b as u64, c as u64]) == uvarint_bytes(a) + uvarint_bytes(b) + uvarint_bytes(c),
{
    let f: Seq<u64> = seq![a as u64, b as u64, c as u64];
    let e = Seq::<u64>::empty();
    assert(f.drop_first().drop_first().drop_first() =~= e);
    assert(f.drop_first().drop_first() =~= seq![c as u64]);
    assert(f.drop_first() =~= seq![b as u64, c as u64]);
    assert(varints_bytes(e) == Seq::<u8>::empty());
    assert(varints_bytes(seq![c as u64]) =~= uvarint_bytes(c));
    assert(varints_bytes(seq![b as u64, c as u64]) =~= uvarint_bytes(b) + uvarint_bytes(c));
    assert(varints_bytes(f) =~= uvarint_bytes(a) + uvarint_bytes(b) + uvarint_bytes(c));
}

/// Every entry takes at least one byte.
pub proof fn lemma_body_len(ts: Seq<Seq<u8>>, k: nat, n: int)
    ensures
        n >= 0 ==> body_bytes(ts, k, n).len() >= n,
    decreases n,
{
    if n > 0 {
        lemma_body_len(ts, k, n - 1);
        assert(uvarint_bytes(entry_shared(ts, n - 1, k)).len() >= 1);
    }
}

/// A section's header reads back: the term count, the interval, and the
/// run offsets made absolute by the header's length.
pub proof fn lemma_section_meta(ts: Seq<Seq<u8>>, k: nat)
    requires
        0 < k <= u32::MAX,
        ts.len() <= u32::MAX,
        section_raw(ts, k).len() <= u64::MAX,
    ensures
        spec_section_meta(section_raw(ts, k)) == Some(
            (
                ts.len() as u32,
                k as u32,
                run_offsets(ts, k).map_values(|o: u64| (o + section_header(ts, k).len()) as u64),
                section_header(ts, k).len(),
            ),
        ),
        forall|r: int| 0 <= r < run_offsets(ts, k).len() ==> #[trigger] run_offsets(ts, k)[r] == body_bytes(ts, k, r * (k as int)).len(),
{
    let n = ts.len();
    let nr = run_count(n, k);
    let offs = run_offsets(ts, k);
    let raw = section_raw(ts, k);
    let body = body_bytes(ts, k, n as int);
    let f: Seq<u64> = seq![n as u64, k as u64, nr as u64];
    assert(nr <= n + 1) by (nonlinear_arith)
        requires
            k > 0,
            nr == (n + k - 1) / (k as int),
    ;
    lemma_canonicals_are_varints(offs);
    lemma_three_varints(n, k, nr);
    let rest = varints_bytes(offs) + body;
    assert(raw =~= varints_bytes(f) + rest);
    crate::header::lemma_read_varints(f, rest);
    let m = varints_bytes(f).len();
    assert(raw.skip(m as int) =~= rest);
    crate::header::lemma_read_varints(offs, body);
    let h = section_header(ts, k).len();
    assert(h == m + varints_bytes(offs).len());
    assert forall|r: int| 0 <= r < offs.len() implies #[trigger] offs[r] == body_bytes(ts, k, r * (k as int)).len() by {
        assert(r * (k as int) <= n) by (nonlinear_arith)
            requires
                0 <= r < nr,
                k > 0,
                nr == (n + k - 1) / (k as int),
        ;
        lemma_body_prefix(ts, k, r * (k as int), n as int);
    }
    assert forall|r: int| 0 <= r < offs.len() implies #[trigger] offs[r] + h <= u64::MAX by {
        assert(r * (k as int) <= n) by (nonlinear_arith)
            requires
                0 <= r < nr,
                k > 0,
                nr == (n + k - 1) / (k as int),
        ;
        lemma_body_prefix(ts, k, r * (k as int), n as int);
    }
}

/// A section's run offsets lie, in order, within it.
pub proof fn lemma_section_offsets_ok(ts: Seq<Seq<u8>>)
    requires
        section_raw(ts, RESTART_INTERVAL as nat).len() <= u64::MAX,
    ensures
        raw_offsets_ok(section_raw(ts, RESTART_INTERVAL as nat)),
{
    let k = RESTART_INTERVAL as nat;
    let raw = section_raw(ts, k);
    if ts.len() <= u32::MAX {
        lemma_section_meta(ts, k);
        let h = section_header(ts, k).len();
        let offs = run_offsets(ts, k);
        let abs = raw_offsets(raw);
        let n = ts.len();
        assert forall|r: int| 0 <= r < abs.len() implies #[trigger] abs[r] <= raw.len() by {
            assert(r * 16 <= n) by (nonlinear_arith)
                requires
                    0 <= r < run_count(n, 16),
                    run_count(n, 16) == (n + 15) / 16,
            ;
            lemma_body_prefix(ts, k, r * 16, n as int);
            assert(abs[r] == offs[r] + h);
        }
        assert forall|a: int, b: int| 0 <= a <= b < abs.len() implies #[trigger] abs[a] <= #[trigger] abs[b] by {
            assert(a * 16 <= b * 16 <= n) by (nonlinear_arith)
                requires
                    0 <= a <= b < run_count(n, 16),
                    run_count(n, 16) == (n + 15) / 16,
            ;
            lemma_body_prefix(ts, k, a * 16, b * 16);
            lemma_body_prefix(ts, k, b * 16, n as int);
            assert(offs[a] == body_bytes(ts, k, a * 16).len());
            assert(offs[b] == body_bytes(ts, k, b * 16).len());
            assert(abs[a] == offs[a] + h);
            assert(abs[b] == offs[b] + h);
        }
    } else {
        let n = ts.len();
        let nr = run_count(n, k);
        let f: Seq<u64> = seq![n as u64, k as u64, nr as u64];
        let offs = run_offsets(ts, k);
        lemma_canonicals_are_varints(offs);
        lemma_body_len(ts, k, n as int);
        assert(nr <= n + 1) by (nonlinear_arith)
            requires
                k > 0,
                nr == (n + k - 1) / (k as int),
        ;
        lemma_three_varints(n, k, nr);
        let rest = varints_bytes(offs) + body_bytes(ts, k, n as int);
        assert(raw =~= varints_bytes(f) + rest);
        crate::header::lemma_read_varints(f, rest);
        assert(spec_section_meta(raw) is None);
    }
}

/// One chunk of a decoded dictionary section: its first run, routing key,
/// where that run starts in the raw section, and its decompressed body.
#[derive(Clone, Debug)]
pub struct SectionChunk {
    pub first_run: usize,
    pub key: Vec<u8>,
    pub body_start: u64,
    pub body: Vec<u8>,
}

/// A decoded dictionary section: its header and its chunks.
#[derive(Clone, Debug)]
pub struct ChunkedSection {
    pub meta: SectionMeta,
    pub chunks: Vec<SectionChunk>,
}

/// The chunk as plain values.
pub open spec fn section_chunk_view(c: SectionChunk) -> (int, Seq<u8>, u64, Seq<u8>) {
    (c.first_run as int, c.key@, c.body_start, c.body@)
}

/// The chunks of a section payload, each stored range decompressed; or the
/// first failure.
pub open spec fn decoded_chunks(payload: Seq<u8>, codec: u8, es: Seq<(int, Seq<u8>, u64, u64, u64)>) -> Result<
    Seq<(int, Seq<u8>, u64, Seq<u8>)>,
    FileError,
>
    decreases es.len(),
{
    if es.len() == 0 {
        Ok(seq![])
    } else {
        let e = es[0];
        if e.3 > usize::MAX || e.4 > usize::MAX {
            Err(FileError::Container("dict chunk offset too large"))
        } else if e.3 > e.4 || e.4 > payload.len() {
            Err(FileError::Container("dict chunk overruns section"))
        } else {
            match spec_decompress(codec, payload.subrange(e.3 as int, e.4 as int)) {
                Err(x) => Err(x),
                Ok(body) => match decoded_chunks(payload, codec, es.drop_first()) {
                    Err(x) => Err(x),
                    Ok(rest) => Ok(seq![(e.0, e.1, e.2, body)] + rest),
                },
            }
        }
    }
}

/// What [`decode_chunked_dict_section`] gives: the meta and the decoded
/// chunks.
pub open spec fn spec_chunked_section(payload: Seq<u8>, codec: u8) -> Result<
    ((u32, u32, Seq<u64>), Seq<(int, Seq<u8>, u64, Seq<u8>)>),
    FileError,
> {
    match spec_chunked_dir(payload, payload.len() as u64) {
        Err(e) => Err(e),
        Ok((m, es)) => match decoded_chunks(payload, codec, es) {
            Err(e) => Err(e),
            Ok(cs) => Ok((m, cs)),
        },
    }
}

/// Decode one chunked dictionary section payload, decompressing every
/// chunk up front.
pub fn decode_chunked_dict_section(payload: &[u8], codec: u8) -> (r: Result<ChunkedSection, FileError>)
    ensures
        match spec_chunked_section(payload@, codec) {
            Ok((m, cs)) => r matches Ok(sec) && (sec.meta.term_count, sec.meta.restart_interval, sec.meta.restart_offsets@)
                == m && sec.chunks@.map_values(|c: SectionChunk| section_chunk_view(c)) == cs,
            Err(e) => r == Err::<ChunkedSection, FileError>(e),
        },
{
    let plen = payload.len();
    let (meta, entries) = parse_chunked_dict_dir(payload, plen as u64)?;
    let ghost es = entries@.map_values(|e: DictChunkEntry| chunk_entry_view(e));
    let ghost whole = decoded_chunks(payload@, codec, es);
    let ghost m3 = (meta.term_count, meta.restart_interval, meta.restart_offsets@);
    let n = entries.len();
    let mut chunks: Vec<SectionChunk> = Vec::new();
    let mut i: usize = 0;
    proof {
        assert(es.skip(0) =~= es);
        assert(chunks@.map_values(|c: SectionChunk| section_chunk_view(c)) =~= Seq::<(int, Seq<u8>, u64, Seq<u8>)>::empty());
        if let Ok(cs) = whole {
            assert(Seq::<(int, Seq<u8>, u64, Seq<u8>)>::empty() + cs =~= cs);
        }
    }
    while i < n
        invariant
            n == entries@.len(),
            plen == payload@.len(),
            es == entries@.map_values(|e: DictChunkEntry| chunk_entry_view(e)),
            i <= n,
            whole == match decoded_chunks(payload@, codec, es.skip(i as int)) {
                Ok(rest) => Ok(chunks@.map_values(|c: SectionChunk| section_chunk_view(c)) + rest),
                Err(e) => Err::<Seq<(int, Seq<u8>, u64, Seq<u8>)>, FileError>(e),
            },
            whole == decoded_chunks(payload@, codec, es),
            spec_chunked_section(payload@, codec) == match whole {
                Err(e) => Err(e),
                Ok(cs) => Ok((m3, cs)),
            },
        decreases n - i,
    {
        let e = &entries[i];
        proof {
            assert(es.skip(i as int)[0] == chunk_entry_view(*e));
            assert(es.skip(i as int).drop_first() =~= es.skip(i + 1));
        }
        if e.start > usize::MAX as u64 || e.end > usize::MAX as u64 {
            return Err(FileError::Container("dict chunk offset too large"));
        }
        if e.start > e.end || e.end > plen as u64 {
            return Err(FileError::Container("dict chunk overruns section"));
        }
        let body = decompress(codec, vstd::slice::slice_subrange(payload, e.start as usize, e.end as usize))?;
        let ghost before = chunks@.map_values(|c: SectionChunk| section_chunk_view(c));
        let c = SectionChunk {
            first_run: e.first_run,
            key: vstd::slice::slice_to_vec(e.key.as_slice()),
            body_start: e.body_start,
            body,
        };
        chunks.push(c);
        proof {
            let v = (e.first_run as int, e.key@, e.body_start, c.body@);
            assert(chunks@.map_values(|c: SectionChunk| section_chunk_view(c)) =~= before.push(v));
            if let Ok(rest) = decoded_chunks(payload@, codec, es.skip(i + 1)) {
                assert(before + (seq![v] + rest) =~= chunks@.map_values(|c: SectionChunk| section_chunk_view(c)) + rest);
            }
        }
        i = i + 1;
    }
    proof {
        assert(es.skip(n as int) =~= Seq::<(int, Seq<u8>, u64, u64, u64)>::empty());
        assert(chunks@.map_values(|c: SectionChunk| section_chunk_view(c)) + Seq::<(int, Seq<u8>, u64, Seq<u8>)>::empty()
            =~= chunks@.map_values(|c: SectionChunk| section_chunk_view(c)));
    }
    Ok(ChunkedSection { meta, chunks })
}

/// The bodies of decoded chunks, laid end to end.
pub open spec fn concat_bodies(cs: Seq<(int, Seq<u8>, u64, Seq<u8>)>) -> Seq<u8>
    decreases cs.len(),
{
    if cs.len() == 0 {
        seq![]
    } else {
        concat_bodies(cs.drop_last()) + cs.last().3
    }
}

/// Run offsets measured from the first run's start, when none lies before
/// it.
pub open spec fn relative_offsets(offs: Seq<u64>) -> Option<Seq<u64>> {
    if offs.len() == 0 {
        Some(seq![])
    } else if forall|r: int| 0 <= r < offs.len() ==> #[trigger] offs[r] >= offs[0] {
        Some(offs.map_values(|o: u64| (o - offs[0]) as u64))
    } else {
        None
    }
}

/// The terms a decoded section holds: its chunk bodies, laid end to end,
/// decoded against its header.
pub open spec fn spec_section_terms(m: (u32, u32, Seq<u64>), cs: Seq<(int, Seq<u8>, u64, Seq<u8>)>) -> Option<
    Seq<Seq<u8>>,
> {
    if m.1 == 0 {
        None
    } else {
        match relative_offsets(m.2) {
            None => None,
            Some(rel) => decode_terms(concat_bodies(cs), 0, seq![], 0, m.0 as nat, m.1 as nat, rel),
        }
    }
}

/// The terms of a decoded section, in id order.
pub fn section_terms(sec: &ChunkedSection) -> (r: Option<Vec<Vec<u8>>>)
    ensures
        match spec_section_terms(
            (sec.meta.term_count, sec.meta.restart_interval, sec.meta.restart_offsets@),
            sec.chunks@.map_values(|c: SectionChunk| section_chunk_view(c)),
        ) {
            Some(ts) => r matches Some(v) && terms_of(v@) == ts,
            None => r is None,
        },
{
    if sec.meta.restart_interval == 0 {
        return None;
    }
    let ghost cs = sec.chunks@.map_values(|c: SectionChunk| section_chunk_view(c));
    let mut body: Vec<u8> = Vec::new();
    let n = sec.chunks.len();
    let mut i: usize = 0;
    while i < n
        invariant
            n == sec.chunks@.len(),
            cs == sec.chunks@.map_values(|c: SectionChunk| section_chunk_view(c)),
            i <= n,
            body@ == concat_bodies(cs.take(i as int)),
        decreases n - i,
    {
        let ghost before = body@;
        body.extend_from_slice(sec.chunks[i].body.as_slice());
        proof {
            assert(cs.take(i + 1).drop_last() =~= cs.take(i as int));
            assert(body@ =~= before + sec.chunks@[i as int].body@);
        }
        i = i + 1;
    }
    proof {
        assert(cs.take(n as int) =~= cs);
    }
    let offs = &sec.meta.restart_offsets;
    let m = offs.len();
    let mut rel: Vec<u64> = Vec::new();
    if m > 0 {
        let base = offs[0];
        let mut r: usize = 0;
        while r < m
            invariant
                m == offs@.len(),
                m > 0,
                base == offs@[0],
                offs@ == sec.meta.restart_offsets@,
                sec.meta.restart_interval != 0,
                r <= m,
                rel@ == offs@.take(r as int).map_values(|o: u64| (o - base) as u64),
                forall|x: int| 0 <= x < r ==> #[trigger] offs@[x] >= base,
            decreases m - r,
        {
            if offs[r] < base {
                proof {
                    assert(relative_offsets(offs@) is None);
                }
                return None;
            }
            rel.push(offs[r] - base);
            proof {
                assert(rel@ =~= offs@.take(r + 1).map_values(|o: u64| (o - base) as u64));
            }
            r = r + 1;
        }
        proof {
            assert(offs@.take(m as int) =~= offs@);
        }
    } else {
        proof {
            assert(rel@ =~= Seq::<u64>::empty());
        }
    }
    decode_body_terms(body.as_slice(), sec.meta.term_count, sec.meta.restart_interval, &rel)
}

/// What decoding one section payload gives: its terms, or the failure.
pub open spec fn spec_section_decode(payload: Seq<u8>, codec: u8) -> Result<Seq<Seq<u8>>, FileError> {
    match spec_chunked_section(payload, codec) {
        Err(e) => Err(e),
        Ok((m, cs)) => match spec_section_terms(m, cs) {
            Some(ts) => Ok(ts),
            None => Err(FileError::Container("malformed dict section")),
        },
    }
}

/// Decode one section payload to its terms.
pub fn decode_section_terms(payload: &[u8], codec: u8) -> (r: Result<Vec<Vec<u8>>, FileError>)
    ensures
        match spec_section_decode(payload@, codec) {
            Ok(ts) => r matches Ok(v) && terms_of(v@) == ts,
            Err(e) => r == Err::<Vec<Vec<u8>>, FileError>(e),
        },
{
    let sec = decode_chunked_dict_section(payload, codec)?;
    match section_terms(&sec) {
        Some(ts) => Ok(ts),
        None => Err(FileError::Container("malformed dict section")),
    }
}

/// What [`decode_dictionary_container`] gives: the four sections' terms,
/// or the first failure in section order.
pub open spec fn spec_dictionary(bytes: Seq<u8>, codec: u8) -> Result<
    (Seq<Seq<u8>>, Seq<Seq<u8>>, Seq<Seq<u8>>, Seq<Seq<u8>>),
    FileError,
> {
    match crate::container::spec_decode_container(bytes, CODEC_NONE, 4) {
        Err(e) => Err(e),
        Ok(ps) => match spec_section_decode(ps[0], codec) {
            Err(e) => Err(e),
            Ok(a) => match spec_section_decode(ps[1], codec) {
                Err(e) => Err(e),
                Ok(b) => match spec_section_decode(ps[2], codec) {
                    Err(e) => Err(e),
                    Ok(c) => match spec_section_decode(ps[3], codec) {
                        Err(e) => Err(e),
                        Ok(d) => Ok((a, b, c, d)),
                    },
                },
            },
        },
    }
}

/// Decode the dictionary container: four chunked sections, shared terms,
/// subject-only terms, object-only terms and predicates.
pub fn decode_dictionary_container(bytes: &[u8], codec: u8) -> (r: Result<Dictionary, FileError>)
    ensures
        match spec_dictionary(bytes@, codec) {
            Ok((a, b, c, d)) => r matches Ok(dict) && dict.shared_terms() == a && dict.subject_terms() == b
                && dict.object_terms() == c && dict.predicate_terms() == d,
            Err(e) => r == Err::<Dictionary, FileError>(e),
        },
{
    let secs = crate::container::decode_container(bytes, CODEC_NONE, 4)?;
    proof {
        crate::container::lemma_decode_container_len(bytes@, CODEC_NONE, 4);
        let ps = secs@.map_values(|x: Vec<u8>| x@);
        assert(ps[0] == secs@[0]@ && ps[1] == secs@[1]@ && ps[2] == secs@[2]@ && ps[3] == secs@[3]@);
    }
    let shared = decode_section_terms(secs[0].as_slice(), codec)?;
    let subjects = decode_section_terms(secs[1].as_slice(), codec)?;
    let objects = decode_section_terms(secs[2].as_slice(), codec)?;
    let predicates = decode_section_terms(secs[3].as_slice(), codec)?;
    Ok(Dictionary { shared, subjects, objects, predicates })
}

impl Dictionary {
    /// The four raw front-coded sections, in container order.
    pub fn sections(&self) -> (r: Vec<Vec<u8>>)
        ensures
            r@.len() == 4,
            r@[0]@ == section_raw(self.shared_terms(), RESTART_INTERVAL as nat),
            r@[1]@ == section_raw(self.subject_terms(), RESTART_INTERVAL as nat),
            r@[2]@ == section_raw(self.object_terms(), RESTART_INTERVAL as nat),
            r@[3]@ == section_raw(self.predicate_terms(), RESTART_INTERVAL as nat),
    {
        let mut out: Vec<Vec<u8>> = Vec::new();
        out.push(section_bytes(&self.shared));
        out.push(section_bytes(&self.subjects));
        out.push(section_bytes(&self.objects));
        out.push(section_bytes(&self.predicates));
        out
    }
}

/// The dictionary container's section payloads: each raw section in
/// chunked form.
pub open spec fn dict_payloads(d: Dictionary) -> Seq<Seq<u8>> {
    seq![
        chunked_payload(section_raw(d.shared_terms(), RESTART_INTERVAL as nat)),
        chunked_payload(section_raw(d.subject_terms(), RESTART_INTERVAL as nat)),
        chunked_payload(section_raw(d.object_terms(), RESTART_INTERVAL as nat)),
        chunked_payload(section_raw(d.predicate_terms(), RESTART_INTERVAL as nat)),
    ]
}

/// One section of terms in chunked form.
fn chunked_section_of(terms: &Vec<Vec<u8>>, codec: u8) -> (r: Vec<u8>)
    ensures
        r@ == chunked_payload(section_raw(terms_of(terms@), RESTART_INTERVAL as nat)),
{
    let raw = section_bytes(terms);
    let rl = raw.len();
    proof {
        lemma_section_offsets_ok(terms_of(terms@));
    }
    encode_chunked_dict_section(raw.as_slice(), codec)
}

/// Serialize a dictionary to its container: the four sections in chunked
/// form, framed without compression.
pub fn encode_dict_container(dict: &Dictionary, codec: u8) -> (r: Vec<u8>)
    ensures
        r@ == crate::container::container_bytes(dict_payloads(*dict)),
{
    let mut payloads: Vec<Vec<u8>> = Vec::new();
    payloads.push(chunked_section_of(&dict.shared, codec));
    payloads.push(chunked_section_of(&dict.subjects, codec));
    payloads.push(chunked_section_of(&dict.objects, codec));
    payloads.push(chunked_section_of(&dict.predicates, codec));
    proof {
        assert(payloads@.map_values(|p: Vec<u8>| p@) =~= dict_payloads(*dict));
    }
    crate::container::encode_container(&payloads, CODEC_NONE)
}

/// What a chunk-directory prefix parses to: the whole directory, or how
/// far a truncated one got.
#[derive(Debug)]
pub enum ChunkDirParse {
    /// The whole directory; stored ranges are relative to its start.
    Done(Vec<DictChunkEntry>),
    /// A prefix that stops mid-directory: the entries fully read, the bytes
    /// they took, and the chunk count the directory declares.
    Truncated { parsed: usize, used: usize, total: usize },
}

/// Whether some byte among the first ten of `rem` ends a varint.
pub open spec fn terminates_within(rem: Seq<u8>) -> bool {
    exists|i: int| 0 <= i < rem.len() && i < 10 && rem[i] < 128
}

/// The varint at `pos` of a directory prefix: its value and the position
/// after it; `None` when the prefix ends before it does; an error when no
/// longer prefix could make it a varint.
pub open spec fn take_dir(b: Seq<u8>, pos: int) -> Result<Option<(u64, int)>, FileError> {
    let rem = if 0 <= pos <= b.len() { b.skip(pos) } else { seq![] };
    match spec_read_uvarint(rem) {
        Some((v, n)) => Ok(Some((v, pos + n))),
        None => if terminates_within(rem) || rem.len() >= 10 {
            Err(FileError::Container("malformed dict chunk directory"))
        } else {
            Ok(None)
        },
    }
}

/// Entries `i..n` of a chunk directory prefix from `pos`: either all of them
/// (as first run, key, stored length) with the position after, or how many
/// were read and where the one that stopped began.
pub open spec fn dir_only_entries(
    b: Seq<u8>,
    pos: int,
    i: nat,
    n: nat,
    prev: Option<u64>,
    expected: u64,
    total: u64,
) -> Result<Result<(Seq<(u64, Seq<u8>, u64)>, int), (nat, int)>, FileError>
    decreases n - i,
{
    if i >= n {
        Ok(Ok((seq![], pos)))
    } else {
        match take_dir(b, pos) {
            Err(e) => Err(e),
            Ok(None) => Ok(Err((i, pos))),
            Ok(Some((drun, p1))) => match take_dir(b, p1) {
                Err(e) => Err(e),
                Ok(None) => Ok(Err((i, pos))),
                Ok(Some((klen, p2))) => if klen > usize::MAX {
                    Err(FileError::Container("dict chunk term length too large"))
                } else if p2 + klen > usize::MAX {
                    Err(FileError::Container("dict directory offset overflows"))
                } else if p2 + klen > total {
                    Err(FileError::Container("dict chunk key overruns section"))
                } else if p2 + klen > b.len() {
                    Ok(Err((i, pos)))
                } else {
                    let key = b.subrange(p2, p2 + klen);
                    match take_dir(b, p2 + klen) {
                        Err(e) => Err(e),
                        Ok(None) => Ok(Err((i, pos))),
                        Ok(Some((clen, p4))) => {
                            let base: u64 = match prev {
                                Some(q) => q,
                                None => 0,
                            };
                            if clen > isize::MAX {
                                Err(FileError::Container("dict chunk length too large"))
                            } else if base + drun > u64::MAX {
                                Err(FileError::Container("dict chunk run overflows"))
                            } else if (i == 0 && base + drun != 0) || base + drun >= expected || (prev matches Some(q) && base + drun <= q) {
                                Err(FileError::Container("dict chunk run outside restart table"))
                            } else if base + drun > u32::MAX {
                                Err(FileError::Container("dict chunk run exceeds u32"))
                            } else {
                                let fr = (base + drun) as u64;
                                match dir_only_entries(b, p4, i + 1, n, Some(fr), expected, total) {
                                    Err(e) => Err(e),
                                    Ok(Err(t)) => Ok(Err(t)),
                                    Ok(Ok((rest, end))) => Ok(Ok((seq![(fr, key, clen)] + rest, end))),
                                }
                            }
                        },
                    }
                },
            },
        }
    }
}

/// What [`parse_chunk_dir_only`] gives: the entries as (first run, key,
/// stored start, stored end), relative to the directory's start; or
/// `Err((parsed, used, total))` for a truncated prefix; or the failure.
pub open spec fn spec_chunk_dir_only(b: Seq<u8>, total: u64, expected: u64) -> Result<
    Result<Seq<(int, Seq<u8>, u64, u64)>, (nat, int, nat)>,
    FileError,
> {
    match take_dir(b, 0) {
        Err(e) => Err(e),
        Ok(None) => Ok(Err((0, 0, 0))),
        Ok(Some((nc, p))) => if nc > usize::MAX {
            Err(FileError::Container("dict chunk count too large"))
        } else if (expected == 0) != (nc == 0) {
            Err(FileError::Container("dict chunk count disagrees with restart table"))
        } else if 3 * nc > total {
            Err(FileError::Container("dict chunk count exceeds directory"))
        } else {
            match dir_only_entries(b, p, 0, nc as nat, None, expected, total) {
                Err(e) => Err(e),
                Ok(Err((parsed, used))) => Ok(Err((parsed, used, nc as nat))),
                Ok(Ok((es, end))) => match chunk_ranges(es.map_values(|e: (u64, Seq<u8>, u64)| e.2), end, total) {
                    None => Err(FileError::Container("dict chunk overruns section")),
                    Some(rs) => Ok(Ok(Seq::new(es.len(), |j: int| (es[j].0 as int, es[j].1, rs[j].0, rs[j].1)))),
                },
            }
        },
    }
}

/// A directory entry as read, as plain values.
pub open spec fn info_view(x: (u64, Vec<u8>, u64)) -> (u64, Seq<u8>, u64) {
    (x.0, x.1@, x.2)
}

/// Read the varint at `*pos` of a directory prefix.
fn take_dir_at(dir: &[u8], pos: &mut usize) -> (r: Result<Option<u64>, FileError>)
    requires
        *old(pos) <= dir@.len(),
    ensures
        match take_dir(dir@, *old(pos) as int) {
            Err(e) => r == Err::<Option<u64>, FileError>(e),
            Ok(None) => r == Ok::<Option<u64>, FileError>(None),
            Ok(Some((v, p))) => r == Ok::<Option<u64>, FileError>(Some(v)) && *final(pos) == p,
        },
        *final(pos) <= dir@.len(),
        *old(pos) <= *final(pos),
{
    let n = dir.len();
    let ghost rem = dir@.skip(*pos as int);
    match crate::varint::read_uvarint_at(dir, *pos) {
        Some((v, k)) => {
            *pos = *pos + k;
            Ok(Some(v))
        },
        None => {
            let avail = n - *pos;
            let lim = if avail < 10 { avail } else { 10 };
            let mut i: usize = 0;
            while i < lim
                invariant
                    lim <= 10,
                    *pos + lim <= n,
                    n == dir@.len(),
                    *pos == *old(pos),
                    lim == if avail < 10 { avail } else { 10 },
                    avail == n - *pos,
                    rem == dir@.skip(*pos as int),
                    spec_read_uvarint(rem) is None,
                    i <= lim,
                    forall|j: int| 0 <= j < i ==> rem[j] >= 128,
                decreases lim - i,
            {
                if dir[*pos + i] < 128 {
                    proof {
                        assert(rem[i as int] < 128);
                        assert(terminates_within(rem));
                    }
                    return Err(FileError::Container("malformed dict chunk directory"));
                }
                i = i + 1;
            }
            if avail >= 10 {
                return Err(FileError::Container("malformed dict chunk directory"));
            }
            proof {
                assert(!terminates_within(rem));
            }
            Ok(None)
        },
    }
}

/// Parse just a chunk directory (`[chunk count][per chunk: first-run delta,
/// key length, key, stored length]`) from a prefix of it, reporting a prefix
/// that stops mid-directory as truncated rather than as an error. Only bytes
/// that cannot be a directory at any length fail.
#[verifier::rlimit(100)]
#[verifier::spinoff_prover]
pub fn parse_chunk_dir_only(dir: &[u8], dir_total: u64, expected_runs: u64) -> (r: Result<ChunkDirParse, FileError>)
    ensures
        match spec_chunk_dir_only(dir@, dir_total, expected_runs) {
            Err(e) => r == Err::<ChunkDirParse, FileError>(e),
            Ok(Err((parsed, used, total))) => r matches Ok(ChunkDirParse::Truncated { parsed: a, used: b, total: c })
                && a == parsed && b == used && c == total,
            Ok(Ok(es)) => r matches Ok(ChunkDirParse::Done(v)) && v@.map_values(
                |e: DictChunkEntry| (e.first_run as int, e.key@, e.start, e.end),
            ) == es,
        },
{
    let blen = dir.len();
    let mut pos: usize = 0;
    let nc = match take_dir_at(dir, &mut pos)? {
        Some(v) => v,
        None => return Ok(ChunkDirParse::Truncated { parsed: 0, used: 0, total: 0 }),
    };
    if nc > usize::MAX as u64 {
        return Err(FileError::Container("dict chunk count too large"));
    }
    if (expected_runs == 0) != (nc == 0) {
        return Err(FileError::Container("dict chunk count disagrees with restart table"));
    }
    if nc > dir_total / 3 {
        return Err(FileError::Container("dict chunk count exceeds directory"));
    }
    let ghost p0 = pos;
    let ghost whole = dir_only_entries(dir@, p0 as int, 0, nc as nat, None, expected_runs, dir_total);
    let mut infos: Vec<(u64, Vec<u8>, u64)> = Vec::new();
    let mut prev: Option<u64> = None;
    let mut i: u64 = 0;
    proof {
        assert(infos@.map_values(|x: (u64, Vec<u8>, u64)| info_view(x)) =~= Seq::<(u64, Seq<u8>, u64)>::empty());
        if let Ok(Ok((es, e))) = whole {
            assert(Seq::<(u64, Seq<u8>, u64)>::empty() + es =~= es);
        }
    }
    while i < nc
        invariant
            blen == dir@.len(),
            pos <= blen,
            i <= nc,
            nc <= usize::MAX,
            infos@.len() == i,
            whole == dir_only_entries(dir@, p0 as int, 0, nc as nat, None, expected_runs, dir_total),
            whole == match dir_only_entries(dir@, pos as int, i as nat, nc as nat, prev, expected_runs, dir_total) {
                Err(e) => Err(e),
                Ok(Err(t)) => Ok(Err(t)),
                Ok(Ok((rest, e))) => Ok(Ok((infos@.map_values(|x: (u64, Vec<u8>, u64)| info_view(x)) + rest, e))),
            },
            forall|x: int| 0 <= x < infos@.len() ==> #[trigger] infos@[x].0 <= u32::MAX,
            spec_chunk_dir_only(dir@, dir_total, expected_runs) == match whole {
                Err(e) => Err(e),
                Ok(Err((parsed, used))) => Ok(Err((parsed, used, nc as nat))),
                Ok(Ok((es, end))) => match chunk_ranges(es.map_values(|e: (u64, Seq<u8>, u64)| e.2), end, dir_total) {
                    None => Err(FileError::Container("dict chunk overruns section")),
                    Some(rs) => Ok(Ok(Seq::new(es.len(), |j: int| (es[j].0 as int, es[j].1, rs[j].0, rs[j].1)))),
                },
            },
        decreases nc - i,
    {
        let entry_start = pos;
        let drun = match take_dir_at(dir, &mut pos)? {
            Some(v) => v,
            None => return Ok(ChunkDirParse::Truncated { parsed: i as usize, used: entry_start, total: nc as usize }),
        };
        let klen = match take_dir_at(dir, &mut pos)? {
            Some(v) => v,
            None => return Ok(ChunkDirParse::Truncated { parsed: i as usize, used: entry_start, total: nc as usize }),
        };
        if klen > usize::MAX as u64 {
            return Err(FileError::Container("dict chunk term length too large"));
        }
        if klen as usize > usize::MAX - pos {
            return Err(FileError::Container("dict directory offset overflows"));
        }
        let key_end = pos + klen as usize;
        if key_end as u64 > dir_total {
            return Err(FileError::Container("dict chunk key overruns section"));
        }
        if key_end > blen {
            return Ok(ChunkDirParse::Truncated { parsed: i as usize, used: entry_start, total: nc as usize });
        }
        let key = vstd::slice::slice_to_vec(vstd::slice::slice_subrange(dir, pos, key_end));
        pos = key_end;
        let clen = match take_dir_at(dir, &mut pos)? {
            Some(v) => v,
            None => return Ok(ChunkDirParse::Truncated { parsed: i as usize, used: entry_start, total: nc as usize }),
        };
        if clen > isize::MAX as u64 {
            return Err(FileError::Container("dict chunk length too large"));
        }
        let base: u64 = match prev {
            Some(q) => q,
            None => 0,
        };
        if drun > u64::MAX - base {
            return Err(FileError::Container("dict chunk run overflows"));
        }
        let fr = base + drun;
        let later = match prev {
            Some(q) => fr <= q,
            None => false,
        };
        if (i == 0 && fr != 0) || fr >= expected_runs || later {
            return Err(FileError::Container("dict chunk run outside restart table"));
        }
        if fr > 0xffff_ffff {
            return Err(FileError::Container("dict chunk run exceeds u32"));
        }
        let ghost before = infos@.map_values(|x: (u64, Vec<u8>, u64)| info_view(x));
        let ghost before_raw = infos@;
        infos.push((fr, key, clen));
        proof {
            assert(infos@.map_values(|x: (u64, Vec<u8>, u64)| info_view(x)) =~= before.push((fr, key@, clen)));
            if let Ok(Ok((rest, e))) = dir_only_entries(dir@, pos as int, (i + 1) as nat, nc as nat, Some(fr), expected_runs, dir_total) {
                assert(before + (seq![(fr, key@, clen)] + rest) =~= infos@.map_values(|x: (u64, Vec<u8>, u64)| info_view(x)) + rest);
            }
            assert forall|x: int| 0 <= x < infos@.len() implies #[trigger] infos@[x].0 <= u32::MAX by {
                if x < before_raw.len() {
                    assert(infos@[x] == before_raw[x]);
                }
            }
        }
        prev = Some(fr);
        i = i + 1;
    }
    let ghost es = infos@.map_values(|x: (u64, Vec<u8>, u64)| info_view(x));
    let ghost lens = es.map_values(|e: (u64, Seq<u8>, u64)| e.2);
    let ghost rwhole = chunk_ranges(lens, pos as int, dir_total);
    proof {
        assert(es + Seq::<(u64, Seq<u8>, u64)>::empty() =~= es);
        assert(whole == Ok::<Result<(Seq<(u64, Seq<u8>, u64)>, int), (nat, int)>, FileError>(Ok((es, pos as int))));
    }
    let n = infos.len();
    let mut start: u64 = pos as u64;
    let mut out: Vec<DictChunkEntry> = Vec::new();
    let mut j: usize = 0;
    let ghost mut done: Seq<(u64, u64)> = seq![];
    proof {
        assert(lens.skip(0) =~= lens);
        assert(done + Seq::<(u64, u64)>::empty() =~= Seq::<(u64, u64)>::empty());
    }
    while j < n
        invariant
            n == infos@.len(),
            es == infos@.map_values(|x: (u64, Vec<u8>, u64)| info_view(x)),
            lens == es.map_values(|e: (u64, Seq<u8>, u64)| e.2),
            j <= n,
            done.len() == j,
            out@.len() == j,
            rwhole == match chunk_ranges(lens.skip(j as int), start as int, dir_total) {
                Some(rest) => Some(done + rest),
                None => None,
            },
            forall|x: int| 0 <= x < j ==> #[trigger] out@[x].first_run as int == es[x].0 as int && out@[x].key@ == es[x].1
                && out@[x].start == done[x].0 && out@[x].end == done[x].1,
            forall|x: int| 0 <= x < infos@.len() ==> #[trigger] infos@[x].0 <= u32::MAX,
            spec_chunk_dir_only(dir@, dir_total, expected_runs) == match rwhole {
                None => Err(FileError::Container("dict chunk overruns section")),
                Some(rs) => Ok(Ok::<Seq<(int, Seq<u8>, u64, u64)>, (nat, int, nat)>(Seq::new(es.len(), |x: int| (es[x].0 as int, es[x].1, rs[x].0, rs[x].1)))),
            },
        decreases n - j,
    {
        let len = infos[j].2;
        proof {
            assert(lens.skip(j as int)[0] == len);
            assert(lens.skip(j as int).drop_first() =~= lens.skip(j + 1));
        }
        if len > dir_total || start > dir_total - len {
            return Err(FileError::Container("dict chunk overruns section"));
        }
        let end = start + len;
        let fr = infos[j].0;
        proof {
            assert(infos@[j as int].0 <= u32::MAX);
            assert(es[j as int] == info_view(infos@[j as int]));
        }
        let key = vstd::slice::slice_to_vec(infos[j].1.as_slice());
        let ghost before = out@;
        out.push(DictChunkEntry { first_run: fr as usize, key, body_start: 0, start, end });
        proof {
            let nd = done.push((start, end));
            if let Some(rest) = chunk_ranges(lens.skip(j + 1), end as int, dir_total) {
                assert(done + (seq![(start, end)] + rest) =~= nd + rest);
            }
            assert forall|x: int| 0 <= x < j + 1 implies #[trigger] out@[x].first_run as int == es[x].0 as int && out@[x].key@
                == es[x].1 && out@[x].start == nd[x].0 && out@[x].end == nd[x].1 by {
                if x < j {
                    assert(out@[x] == before[x]);
                    assert(nd[x] == done[x]);
                } else {
                    assert(out@[x].first_run == fr as usize);
                    assert(fr <= u32::MAX);
                    assert((fr as usize) as int == fr as int);
                    assert(nd[x] == (start, end));
                    assert(es[x].0 == fr);
                    assert(out@[x].key@ == infos@[j as int].1@);
                }
            }
            done = nd;
        }
        start = end;
        j = j + 1;
    }
    proof {
        assert(lens.skip(n as int) =~= Seq::<u64>::empty());
        assert(done + Seq::<(u64, u64)>::empty() =~= done);
        assert(out@.map_values(|e: DictChunkEntry| (e.first_run as int, e.key@, e.start, e.end)) =~= Seq::new(
            es.len(),
            |x: int| (es[x].0 as int, es[x].1, done[x].0, done[x].1),
        ));
    }
    Ok(ChunkDirParse::Done(out))
}

} // verus!
