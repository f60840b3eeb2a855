//! The effective schema of a graph: relations between `rdf:type` classes
//! with their volumes, and class populations.
use vstd::prelude::*;

use crate::dict::bytes_equal;
use crate::index::index_matches;
use crate::rete::{resolve_all, tts_view, Rete, TermTriple};
use vstd::string::StringSliceAdditionalSpecFns;

verus! {

/// The `rdf:type` predicate.
pub const RDF_TYPE: &'static str = "<http://www.w3.org/1999/02/22-rdf-syntax-ns#type>";

/// A triple of terms as plain values.
pub type TermView = (Seq<u8>, Seq<u8>, Seq<u8>);

/// Byte strings in lexicographic order: a proper prefix comes first.
pub open spec fn bytes_lt(a: Seq<u8>, b: Seq<u8>) -> bool
    decreases a.len(),
{
    if a.len() == 0 {
        b.len() > 0
    } else if b.len() == 0 {
        false
    } else if a[0] != b[0] {
        a[0] < b[0]
    } else {
        bytes_lt(a.drop_first(), b.drop_first())
    }
}

/// No byte string comes before itself.
proof fn lemma_lt_irreflexive(a: Seq<u8>)
    ensures
        !bytes_lt(a, a),
    decreases a.len(),
{
    if a.len() > 0 {
        lemma_lt_irreflexive(a.drop_first());
    }
}

/// Of two distinct byte strings exactly one comes first.
proof fn lemma_lt_total(a: Seq<u8>, b: Seq<u8>)
    ensures
        bytes_lt(a, b) ==> !bytes_lt(b, a),
        a != b ==> bytes_lt(a, b) || bytes_lt(b, a),
    decreases a.len(),
{
    if a.len() > 0 && b.len() > 0 && a[0] == b[0] {
        lemma_lt_total(a.drop_first(), b.drop_first());
        if a != b {
            assert(a.drop_first() != b.drop_first()) by {
                if a.drop_first() == b.drop_first() {
                    assert(a =~= seq![a[0]] + a.drop_first());
                    assert(b =~= seq![b[0]] + b.drop_first());
                }
            }
        }
    }
    if a.len() == 0 && b.len() == 0 {
        assert(a =~= b);
    }
}

/// Lexicographic order is transitive.
proof fn lemma_lt_transitive(a: Seq<u8>, b: Seq<u8>, c: Seq<u8>)
    ensures
        bytes_lt(a, b) && bytes_lt(b, c) ==> bytes_lt(a, c),
    decreases a.len(),
{
    if a.len() > 0 && b.len() > 0 && c.len() > 0 && a[0] == b[0] && b[0] == c[0] {
        lemma_lt_transitive(a.drop_first(), b.drop_first(), c.drop_first());
    }
}

/// Lexicographic order is a strict total order.
pub proof fn lemma_bytes_lt(a: Seq<u8>, b: Seq<u8>, c: Seq<u8>)
    ensures
        !bytes_lt(a, a),
        bytes_lt(a, b) ==> !bytes_lt(b, a),
        a != b ==> bytes_lt(a, b) || bytes_lt(b, a),
        bytes_lt(a, b) && bytes_lt(b, c) ==> bytes_lt(a, c),
{
    lemma_lt_irreflexive(a);
    lemma_lt_total(a, b);
    lemma_lt_transitive(a, b, c);
}

/// Term triples in lexicographic order, component by component.
pub open spec fn key_lt(a: TermView, b: TermView) -> bool {
    ||| bytes_lt(a.0, b.0)
    ||| (a.0 == b.0 && bytes_lt(a.1, b.1))
    ||| (a.0 == b.0 && a.1 == b.1 && bytes_lt(a.2, b.2))
}

/// Component-wise lexicographic order is a strict total order.
pub proof fn lemma_key_lt(a: TermView, b: TermView, c: TermView)
    ensures
        !key_lt(a, a),
        key_lt(a, b) ==> !key_lt(b, a),
        a != b ==> key_lt(a, b) || key_lt(b, a),
        key_lt(a, b) && key_lt(b, c) ==> key_lt(a, c),
{
    lemma_bytes_lt(a.0, b.0, c.0);
    lemma_bytes_lt(a.1, b.1, c.1);
    lemma_bytes_lt(a.2, b.2, c.2);
    lemma_bytes_lt(b.0, a.0, c.0);
    lemma_bytes_lt(b.1, a.1, c.1);
    lemma_bytes_lt(b.2, a.2, c.2);
}

/// Whether `a` comes before `b` in lexicographic order.
pub fn bytes_less(a: &[u8], b: &[u8]) -> (r: bool)
    ensures
        r == bytes_lt(a@, b@),
{
    let n = a.len();
    let m = b.len();
    let mut i: usize = 0;
    proof {
        assert(a@.skip(0) =~= a@);
        assert(b@.skip(0) =~= b@);
    }
    while i < n && i < m && a[i] == b[i]
        invariant
            n == a@.len(),
            m == b@.len(),
            i <= n,
            i <= m,
            bytes_lt(a@, b@) == bytes_lt(a@.skip(i as int), b@.skip(i as int)),
        decreases n - i,
    {
        proof {
            assert(a@.skip(i as int).drop_first() =~= a@.skip(i + 1));
            assert(b@.skip(i as int).drop_first() =~= b@.skip(i + 1));
        }
        i = i + 1;
    }
    if i == n {
        i < m
    } else if i == m {
        false
    } else {
        a[i] < b[i]
    }
}

/// Whether triple `a` comes before triple `b`.
fn key_less(a: &TermTriple, b: &TermTriple) -> (r: bool)
    ensures
        r == key_lt((a.0@, a.1@, a.2@), (b.0@, b.1@, b.2@)),
{
    if bytes_less(a.0.as_slice(), b.0.as_slice()) {
        return true;
    }
    if !bytes_equal(a.0.as_slice(), b.0.as_slice()) {
        return false;
    }
    if bytes_less(a.1.as_slice(), b.1.as_slice()) {
        return true;
    }
    if !bytes_equal(a.1.as_slice(), b.1.as_slice()) {
        return false;
    }
    bytes_less(a.2.as_slice(), b.2.as_slice())
}

/// Whether two triples are equal.
fn key_equal(a: &TermTriple, b: &TermTriple) -> (r: bool)
    ensures
        r == ((a.0@, a.1@, a.2@) == (b.0@, b.1@, b.2@)),
{
    bytes_equal(a.0.as_slice(), b.0.as_slice()) && bytes_equal(a.1.as_slice(), b.1.as_slice()) && bytes_equal(
        a.2.as_slice(),
        b.2.as_slice(),
    )
}

/// A copy of a byte string.
fn copy_bytes(v: &Vec<u8>) -> (r: Vec<u8>)
    ensures
        r@ == v@,
{
    vstd::slice::slice_to_vec(v.as_slice())
}

/// A tally of keys: distinct keys in ascending order, each with a count.
pub open spec fn tally_view(v: Seq<(TermTriple, u32)>) -> Seq<(TermView, u32)> {
    v.map_values(|e: (TermTriple, u32)| ((e.0.0@, e.0.1@, e.0.2@), e.1))
}

/// Keys strictly ascending.
pub open spec fn tally_sorted(t: Seq<(TermView, u32)>) -> bool {
    forall|i: int, j: int| 0 <= i < j < t.len() ==> key_lt(#[trigger] t[i].0, #[trigger] t[j].0)
}

/// Where key `k` belongs in a sorted tally: after every smaller key.
pub open spec fn tally_pos(t: Seq<(TermView, u32)>, k: TermView, i: int) -> int
    decreases t.len() - i,
{
    if i < 0 || i >= t.len() || !key_lt(t[i].0, k) {
        i
    } else {
        tally_pos(t, k, i + 1)
    }
}

/// Count one more `k` in a sorted tally: its count grows by one, or it
/// enters with a count of one in its place.
pub open spec fn tally_add(t: Seq<(TermView, u32)>, k: TermView) -> Seq<(TermView, u32)> {
    let p = tally_pos(t, k, 0);
    if p < t.len() && t[p].0 == k {
        t.update(p, (k, (t[p].1 + 1) as u32))
    } else {
        t.insert(p, (k, 1u32))
    }
}

/// The position of a key is past every smaller key and at the first key
/// not smaller.
pub proof fn lemma_tally_pos(t: Seq<(TermView, u32)>, k: TermView, i: int)
    requires
        0 <= i <= t.len(),
    ensures
        i <= tally_pos(t, k, i) <= t.len(),
        forall|j: int| i <= j < tally_pos(t, k, i) ==> key_lt(#[trigger] t[j].0, k),
        tally_pos(t, k, i) < t.len() ==> !key_lt(t[tally_pos(t, k, i)].0, k),
    decreases t.len() - i,
{
    if i < t.len() && key_lt(t[i].0, k) {
        lemma_tally_pos(t, k, i + 1);
    }
}

/// Counting one more key keeps a tally sorted, and changes only that key's
/// count.
pub proof fn lemma_tally_add(t: Seq<(TermView, u32)>, k: TermView)
    requires
        tally_sorted(t),
        forall|j: int| 0 <= j < t.len() && t[j].0 == k ==> #[trigger] t[j].1 < u32::MAX,
    ensures
        tally_sorted(tally_add(t, k)),
        forall|x: TermView| #[trigger] tally_count(tally_add(t, k), x) == tally_count(t, x) + if x == k { 1int } else { 0int },
{
    let p = tally_pos(t, k, 0);
    lemma_tally_pos(t, k, 0);
    let u = tally_add(t, k);
    if p < t.len() && t[p].0 == k {
        assert forall|i: int, j: int| 0 <= i < j < u.len() implies key_lt(#[trigger] u[i].0, #[trigger] u[j].0) by {
            assert(t[i].0 == u[i].0 && t[j].0 == u[j].0);
        }
        assert forall|x: TermView| #[trigger] tally_count(u, x) == tally_count(t, x) + if x == k { 1int } else { 0int } by {
            lemma_tally_count_at(t, x);
            lemma_tally_count_at(u, x);
            if x == k {
                assert(tally_find(t, x) == p) by {
                    lemma_tally_find_unique(t, x, p);
                }
                assert(tally_find(u, x) == p) by {
                    lemma_tally_find_unique(u, x, p);
                }
            } else {
                if tally_find(t, x) >= 0 {
                    let q = tally_find(t, x);
                    assert(u[q].0 == x);
                    lemma_tally_find_unique(u, x, q);
                } else if tally_find(u, x) >= 0 {
                    let q = tally_find(u, x);
                    assert(t[q].0 == x);
                    lemma_tally_find_unique(t, x, q);
                }
            }
        }
    } else {
        assert forall|i: int, j: int| 0 <= i < j < u.len() implies key_lt(#[trigger] u[i].0, #[trigger] u[j].0) by {
            if j < p {
                assert(u[i] == t[i] && u[j] == t[j]);
            } else if j == p {
                assert(u[i] == t[i]);
            } else if i < p {
                assert(u[i] == t[i] && u[j] == t[j - 1]);
                lemma_key_lt(t[i].0, k, t[j - 1].0);
                if j - 1 > p {
                    assert(key_lt(t[p].0, t[j - 1].0));
                }
                lemma_key_lt(k, t[p].0, t[j - 1].0);
                lemma_key_lt(t[i].0, t[p].0, t[j - 1].0);
                assert(key_lt(t[i].0, t[j - 1].0));
            } else if i == p {
                assert(u[j] == t[j - 1]);
                lemma_key_lt(k, t[p].0, t[j - 1].0);
                lemma_key_lt(t[p].0, k, t[j - 1].0);
                if j - 1 > p {
                    assert(key_lt(t[p].0, t[j - 1].0));
                }
            } else {
                assert(u[i] == t[i - 1] && u[j] == t[j - 1]);
            }
        }
        assert forall|x: TermView| #[trigger] tally_count(u, x) == tally_count(t, x) + if x == k { 1int } else { 0int } by {
            lemma_tally_count_at(t, x);
            lemma_tally_count_at(u, x);
            assert(u[p] == (k, 1u32));
            if x == k {
                if tally_find(t, x) >= 0 {
                    let q = tally_find(t, x);
                    if q < p {
                        assert(key_lt(t[q].0, k));
                        lemma_key_lt(k, k, k);
                    } else if q > p {
                        assert(key_lt(t[p].0, t[q].0));
                        lemma_key_lt(t[p].0, k, k);
                        lemma_key_lt(k, t[p].0, k);
                    }
                }
                lemma_tally_find_unique(u, x, p);
            } else {
                if tally_find(t, x) >= 0 {
                    let q = tally_find(t, x);
                    let q2 = if q < p { q } else { q + 1 };
                    assert(u[q2] == t[q]);
                    lemma_tally_find_unique(u, x, q2);
                } else if tally_find(u, x) >= 0 {
                    let q = tally_find(u, x);
                    assert(q != p);
                    let q2 = if q < p { q } else { q - 1 };
                    assert(t[q2] == u[q]);
                    lemma_tally_find_unique(t, x, q2);
                }
            }
        }
    }
}

/// The position of key `k` in a tally, or -1.
pub open spec fn tally_find(t: Seq<(TermView, u32)>, k: TermView) -> int {
    if exists|j: int| 0 <= j < t.len() && t[j].0 == k {
        choose|j: int| 0 <= j < t.len() && t[j].0 == k
    } else {
        -1
    }
}

/// The count a tally holds for `k`: zero when it does not hold `k`.
pub open spec fn tally_count(t: Seq<(TermView, u32)>, k: TermView) -> int {
    if tally_find(t, k) >= 0 {
        t[tally_find(t, k)].1 as int
    } else {
        0
    }
}

/// A found key sits at its position.
pub proof fn lemma_tally_count_at(t: Seq<(TermView, u32)>, k: TermView)
    ensures
        tally_find(t, k) >= 0 ==> 0 <= tally_find(t, k) < t.len() && t[tally_find(t, k)].0 == k,
        tally_find(t, k) < 0 ==> forall|j: int| 0 <= j < t.len() ==> #[trigger] t[j].0 != k,
{
}

/// In a sorted tally a key sits at one position only.
pub proof fn lemma_tally_find_unique(t: Seq<(TermView, u32)>, k: TermView, q: int)
    requires
        tally_sorted(t),
        0 <= q < t.len(),
        t[q].0 == k,
    ensures
        tally_find(t, k) == q,
{
    let f = tally_find(t, k);
    assert(f >= 0);
    if f != q {
        if f < q {
            assert(key_lt(t[f].0, t[q].0));
        } else {
            assert(key_lt(t[q].0, t[f].0));
        }
        lemma_key_lt(k, k, k);
    }
}

/// Count one more `k` in a sorted tally.
fn tally_push(t: &mut Vec<(TermTriple, u32)>, k: TermTriple)
    requires
        tally_sorted(tally_view(old(t)@)),
        forall|j: int|
            0 <= j < old(t)@.len() && tally_view(old(t)@)[j].0 == (k.0@, k.1@, k.2@) ==> #[trigger] tally_view(
                old(t)@,
            )[j].1 < u32::MAX,
    ensures
        tally_view(final(t)@) == tally_add(tally_view(old(t)@), (k.0@, k.1@, k.2@)),
{
    let ghost s = tally_view(t@);
    let ghost kv = (k.0@, k.1@, k.2@);
    let n = t.len();
    let mut p: usize = 0;
    while p < n && key_less(&t[p].0, &k)
        invariant
            n == t@.len(),
            p <= n,
            s == tally_view(t@),
            kv == (k.0@, k.1@, k.2@),
            tally_pos(s, kv, 0) == tally_pos(s, kv, p as int),
        decreases n - p,
    {
        proof {
            assert(s[p as int].0 == (t@[p as int].0.0@, t@[p as int].0.1@, t@[p as int].0.2@));
        }
        p = p + 1;
    }
    proof {
        if p < n {
            assert(s[p as int].0 == (t@[p as int].0.0@, t@[p as int].0.1@, t@[p as int].0.2@));
        }
        assert(tally_pos(s, kv, p as int) == p);
    }
    if p < n && key_equal(&t[p].0, &k) {
        let c = t[p].1;
        proof {
            assert(s[p as int].0 == kv);
            assert(s[p as int].1 == c);
        }
        let key = (copy_bytes(&k.0), copy_bytes(&k.1), copy_bytes(&k.2));
        t.set(p, (key, c + 1));
        proof {
            assert(tally_view(t@) =~= s.update(p as int, (kv, (c + 1) as u32)));
        }
    } else {
        t.insert(p, (k, 1u32));
        proof {
            assert(tally_view(t@) =~= s.insert(p as int, (kv, 1u32)));
        }
    }
}

/// The `rdf:type` predicate's bytes.
pub open spec fn type_term() -> Seq<u8> {
    RDF_TYPE.spec_bytes()
}

/// The triples of the default graph, resolved to terms, in index order.
pub open spec fn default_triples(r: Rete) -> Seq<TermView> {
    resolve_all(r.dict, index_matches(r.index.perms, r.index.sections@, (None, None, None)))
}

/// The `(subject, class)` pairs of the type assertions among the first `n`
/// triples, in order.
pub open spec fn type_pairs(ts: Seq<TermView>, n: int) -> Seq<(Seq<u8>, Seq<u8>)>
    decreases n,
{
    if n <= 0 {
        seq![]
    } else {
        type_pairs(ts, n - 1) + if ts[n - 1].1 == type_term() {
            seq![(ts[n - 1].0, ts[n - 1].2)]
        } else {
            seq![]
        }
    }
}

/// The class the last of `ps` that types `t` gives it.
pub open spec fn last_class(ps: Seq<(Seq<u8>, Seq<u8>)>, t: Seq<u8>) -> Option<Seq<u8>>
    decreases ps.len(),
{
    if ps.len() == 0 {
        None
    } else if ps.last().0 == t {
        Some(ps.last().1)
    } else {
        last_class(ps.drop_last(), t)
    }
}

/// What a term stands for in the schema: the class its last type assertion
/// gives it; `(literal)` for a literal; `(untyped)` otherwise.
pub open spec fn classify(ts: Seq<TermView>, t: Seq<u8>) -> Seq<u8> {
    match last_class(type_pairs(ts, ts.len() as int), t) {
        Some(c) => c,
        None => if t.len() > 0 && t[0] == 34u8 {
            "(literal)".spec_bytes()
        } else {
            "(untyped)".spec_bytes()
        },
    }
}

/// The schema relation triple `i` belongs to: its subject's class, its
/// predicate, its object's class.
pub open spec fn relation_key(ts: Seq<TermView>, i: int) -> TermView {
    (classify(ts, ts[i].0), ts[i].1, classify(ts, ts[i].2))
}

/// The relations of the first `n` triples that are not type assertions,
/// tallied.
pub open spec fn relation_tally(ts: Seq<TermView>, n: int) -> Seq<(TermView, u32)>
    decreases n,
{
    if n <= 0 {
        seq![]
    } else if ts[n - 1].1 == type_term() {
        relation_tally(ts, n - 1)
    } else {
        tally_add(relation_tally(ts, n - 1), relation_key(ts, n - 1))
    }
}

/// How many of the first `n` triples are not type assertions and belong to
/// relation `k`.
pub open spec fn relation_count(ts: Seq<TermView>, k: TermView, n: int) -> int
    decreases n,
{
    if n <= 0 {
        0
    } else {
        relation_count(ts, k, n - 1) + if ts[n - 1].1 != type_term() && relation_key(ts, n - 1) == k {
            1int
        } else {
            0int
        }
    }
}

/// Every count a sorted tally holds is its key's count.
proof fn lemma_entry_count(t: Seq<(TermView, u32)>, j: int)
    requires
        tally_sorted(t),
        0 <= j < t.len(),
    ensures
        tally_count(t, t[j].0) == t[j].1,
{
    lemma_tally_find_unique(t, t[j].0, j);
}

/// The relation tally is sorted and holds, for each relation, how many
/// triples belong to it.
pub proof fn lemma_relation_tally(ts: Seq<TermView>, n: int)
    requires
        0 <= n <= ts.len(),
        ts.len() <= u32::MAX,
    ensures
        tally_sorted(relation_tally(ts, n)),
        forall|k: TermView| #[trigger] tally_count(relation_tally(ts, n), k) == relation_count(ts, k, n),
        forall|k: TermView| 0 <= #[trigger] relation_count(ts, k, n) <= n,
    decreases n,
{
    if n > 0 {
        lemma_relation_tally(ts, n - 1);
        let t = relation_tally(ts, n - 1);
        if ts[n - 1].1 != type_term() {
            let k = relation_key(ts, n - 1);
            assert forall|j: int| 0 <= j < t.len() && t[j].0 == k implies #[trigger] t[j].1 < u32::MAX by {
                lemma_entry_count(t, j);
                assert(relation_count(ts, k, n - 1) <= n - 1);
            }
            lemma_tally_add(t, k);
        }
        assert forall|k: TermView| 0 <= #[trigger] relation_count(ts, k, n) <= n by {
            assert(0 <= relation_count(ts, k, n - 1) <= n - 1);
        }
    }
}

/// The class of `t` among type pairs, searched from the last.
fn class_lookup(types: &Vec<(Vec<u8>, Vec<u8>)>, t: &[u8]) -> (r: Option<Vec<u8>>)
    ensures
        match last_class(types@.map_values(|e: (Vec<u8>, Vec<u8>)| (e.0@, e.1@)), t@) {
            Some(c) => r matches Some(v) && v@ == c,
            None => r is None,
        },
{
    let ghost ps = types@.map_values(|e: (Vec<u8>, Vec<u8>)| (e.0@, e.1@));
    let mut i = types.len();
    proof {
        assert(ps.take(i as int) =~= ps);
    }
    while i > 0
        invariant
            i <= types@.len(),
            ps == types@.map_values(|e: (Vec<u8>, Vec<u8>)| (e.0@, e.1@)),
            last_class(ps, t@) == last_class(ps.take(i as int), t@),
        decreases i,
    {
        proof {
            assert(ps.take(i as int).last() == ps[i - 1]);
            assert(ps.take(i as int).drop_last() =~= ps.take(i - 1));
        }
        if bytes_equal(types[i - 1].0.as_slice(), t) {
            return Some(copy_bytes(&types[i - 1].1));
        }
        i = i - 1;
    }
    None
}

/// The schema class of a term.
fn classify_term(types: &Vec<(Vec<u8>, Vec<u8>)>, t: &Vec<u8>) -> (r: Vec<u8>)
    ensures
        r@ == match last_class(types@.map_values(|e: (Vec<u8>, Vec<u8>)| (e.0@, e.1@)), t@) {
            Some(c) => c,
            None => if t@.len() > 0 && t@[0] == 34u8 {
                "(literal)".spec_bytes()
            } else {
                "(untyped)".spec_bytes()
            },
        },
{
    match class_lookup(types, t.as_slice()) {
        Some(c) => c,
        None => {
            if t.len() > 0 && t[0] == 34u8 {
                vstd::slice::slice_to_vec("(literal)".as_bytes())
            } else {
                vstd::slice::slice_to_vec("(untyped)".as_bytes())
            }
        },
    }
}

/// The type assertions of a run of triples, as `(subject, class)` pairs.
fn collect_types(ts: &Vec<TermTriple>, typ: &[u8]) -> (r: Vec<(Vec<u8>, Vec<u8>)>)
    requires
        typ@ == type_term(),
    ensures
        r@.map_values(|e: (Vec<u8>, Vec<u8>)| (e.0@, e.1@)) == type_pairs(tts_view(ts@), ts@.len() as int),
{
    let ghost tv = tts_view(ts@);
    let n = ts.len();
    let mut out: Vec<(Vec<u8>, Vec<u8>)> = Vec::new();
    let mut i: usize = 0;
    while i < n
        invariant
            n == ts@.len(),
            i <= n,
            tv == tts_view(ts@),
            typ@ == type_term(),
            out@.map_values(|e: (Vec<u8>, Vec<u8>)| (e.0@, e.1@)) == type_pairs(tv, i as int),
        decreases n - i,
    {
        let ghost before = out@.map_values(|e: (Vec<u8>, Vec<u8>)| (e.0@, e.1@));
        proof {
            assert(tv[i as int] == (ts@[i as int].0@, ts@[i as int].1@, ts@[i as int].2@));
        }
        if bytes_equal(ts[i].1.as_slice(), typ) {
            out.push((copy_bytes(&ts[i].0), copy_bytes(&ts[i].2)));
            proof {
                assert(out@.map_values(|e: (Vec<u8>, Vec<u8>)| (e.0@, e.1@)) =~= before.push((tv[i as int].0, tv[i as int].2)));
            }
        } else {
            proof {
                assert(type_pairs(tv, i + 1) =~= before);
            }
        }
        i = i + 1;
    }
    out
}

/// The schema summary as plain values.
pub open spec fn summary_view(v: Seq<(Vec<u8>, Vec<u8>, Vec<u8>, u32)>) -> Seq<(TermView, u32)> {
    v.map_values(|e: (Vec<u8>, Vec<u8>, Vec<u8>, u32)| ((e.0@, e.1@, e.2@), e.3))
}

/// An ontology-aware summary of the default graph: triples grouped by
/// their subject's class, predicate and object's class (a term's class is
/// the object of its last `rdf:type` assertion; a literal is `(literal)`,
/// anything else `(untyped)`), with how many triples each group holds, in
/// ascending order. Type assertions define classes and are not counted.
#[verifier::rlimit(50)]
#[verifier::spinoff_prover]
pub fn schema_summary(rete: &Rete) -> (r: Vec<(Vec<u8>, Vec<u8>, Vec<u8>, u32)>)
    requires
        default_triples(*rete).len() <= u32::MAX,
    ensures
        summary_view(r@) == relation_tally(default_triples(*rete), default_triples(*rete).len() as int),
        tally_sorted(summary_view(r@)),
        forall|k: TermView|
            #[trigger] tally_count(summary_view(r@), k) == relation_count(
                default_triples(*rete),
                k,
                default_triples(*rete).len() as int,
            ),
{
    let ts = rete.dump(None);
    let ghost tv = tts_view(ts@);
    proof {
        assert(tv == default_triples(*rete));
    }
    let typ = RDF_TYPE.as_bytes();
    let types = collect_types(&ts, typ);
    let n = ts.len();
    let mut tally: Vec<(TermTriple, u32)> = Vec::new();
    let mut i: usize = 0;
    proof {
        lemma_relation_tally(tv, 0);
    }
    while i < n
        invariant
            n == ts@.len(),
            i <= n,
            tv == tts_view(ts@),
            tv.len() <= u32::MAX,
            typ@ == type_term(),
            types@.map_values(|e: (Vec<u8>, Vec<u8>)| (e.0@, e.1@)) == type_pairs(tv, tv.len() as int),
            tally_view(tally@) == relation_tally(tv, i as int),
        decreases n - i,
    {
        proof {
            assert(tv[i as int] == (ts@[i as int].0@, ts@[i as int].1@, ts@[i as int].2@));
            lemma_relation_tally(tv, i as int);
        }
        if !bytes_equal(ts[i].1.as_slice(), typ) {
            let a = classify_term(&types, &ts[i].0);
            let c = classify_term(&types, &ts[i].2);
            let key = (a, copy_bytes(&ts[i].1), c);
            proof {
                assert((key.0@, key.1@, key.2@) == relation_key(tv, i as int));
                assert forall|j: int|
                    0 <= j < tally@.len() && tally_view(tally@)[j].0 == (key.0@, key.1@, key.2@) implies #[trigger] tally_view(
                    tally@,
                )[j].1 < u32::MAX by {
                    lemma_entry_count(tally_view(tally@), j);
                    assert(relation_count(tv, relation_key(tv, i as int), i as int) <= i);
                }
            }
            tally_push(&mut tally, key);
        }
        i = i + 1;
    }
    proof {
        lemma_relation_tally(tv, n as int);
    }
    let m = tally.len();
    let mut out: Vec<(Vec<u8>, Vec<u8>, Vec<u8>, u32)> = Vec::new();
    let mut j: usize = 0;
    while j < m
        invariant
            m == tally@.len(),
            j <= m,
            summary_view(out@) == tally_view(tally@).take(j as int),
        decreases m - j,
    {
        let e = &tally[j];
        let ghost before = summary_view(out@);
        let row = (copy_bytes(&e.0.0), copy_bytes(&e.0.1), copy_bytes(&e.0.2), e.1);
        out.push(row);
        proof {
            assert(tally_view(tally@)[j as int] == ((e.0.0@, e.0.1@, e.0.2@), e.1));
            assert(summary_view(out@) =~= before.push(((row.0@, row.1@, row.2@), row.3)));
            assert(tally_view(tally@).take(j + 1) =~= tally_view(tally@).take(j as int).push(tally_view(tally@)[j as int]));
        }
        j = j + 1;
    }
    proof {
        assert(tally_view(tally@).take(m as int) =~= tally_view(tally@));
    }
    out
}

/// The class key of a type assertion's object.
pub open spec fn class_key(c: Seq<u8>) -> TermView {
    (c, seq![], seq![])
}

/// The classes the type assertions among the first `n` triples assign,
/// tallied.
pub open spec fn class_tally(ts: Seq<TermView>, n: int) -> Seq<(TermView, u32)>
    decreases n,
{
    if n <= 0 {
        seq![]
    } else if ts[n - 1].1 == type_term() {
        tally_add(class_tally(ts, n - 1), class_key(ts[n - 1].2))
    } else {
        class_tally(ts, n - 1)
    }
}

/// How many of the first `n` triples assert class `c`.
pub open spec fn class_count(ts: Seq<TermView>, c: Seq<u8>, n: int) -> int
    decreases n,
{
    if n <= 0 {
        0
    } else {
        class_count(ts, c, n - 1) + if ts[n - 1].1 == type_term() && ts[n - 1].2 == c {
            1int
        } else {
            0int
        }
    }
}

/// The class tally is sorted, holds only class keys, and holds each
/// class's count.
pub proof fn lemma_class_tally(ts: Seq<TermView>, n: int)
    requires
        0 <= n <= ts.len(),
        ts.len() <= u32::MAX,
    ensures
        tally_sorted(class_tally(ts, n)),
        forall|c: Seq<u8>| #[trigger] tally_count(class_tally(ts, n), class_key(c)) == class_count(ts, c, n),
        forall|c: Seq<u8>| 0 <= #[trigger] class_count(ts, c, n) <= n,
        forall|j: int| 0 <= j < class_tally(ts, n).len() ==> #[trigger] class_tally(ts, n)[j].0 == class_key(
            class_tally(ts, n)[j].0.0,
        ),
    decreases n,
{
    if n > 0 {
        lemma_class_tally(ts, n - 1);
        let t = class_tally(ts, n - 1);
        if ts[n - 1].1 == type_term() {
            let k = class_key(ts[n - 1].2);
            assert forall|j: int| 0 <= j < t.len() && t[j].0 == k implies #[trigger] t[j].1 < u32::MAX by {
                lemma_entry_count(t, j);
                assert(class_count(ts, ts[n - 1].2, n - 1) <= n - 1);
            }
            lemma_tally_add(t, k);
            let u = class_tally(ts, n);
            let p = tally_pos(t, k, 0);
            lemma_tally_pos(t, k, 0);
            assert forall|j: int| 0 <= j < u.len() implies #[trigger] u[j].0 == class_key(u[j].0.0) by {
                if p < t.len() && t[p].0 == k {
                    assert(u[j].0 == t[j].0);
                } else if j < p {
                    assert(u[j] == t[j]);
                } else if j > p {
                    assert(u[j] == t[j - 1]);
                }
            }
            assert forall|c: Seq<u8>| #[trigger] tally_count(u, class_key(c)) == class_count(ts, c, n) by {
                assert(tally_count(u, class_key(c)) == tally_count(t, class_key(c)) + if class_key(c) == k { 1int } else { 0int });
                assert(class_key(c) == k <==> c == ts[n - 1].2);
            }
        }
        assert forall|c: Seq<u8>| 0 <= #[trigger] class_count(ts, c, n) <= n by {
            assert(0 <= class_count(ts, c, n - 1) <= n - 1);
        }
    }
}

/// Class populations in order: larger first, then by name.
pub open spec fn pop_before(a: (Seq<u8>, u32), b: (Seq<u8>, u32)) -> bool {
    a.1 > b.1 || (a.1 == b.1 && bytes_lt(a.0, b.0))
}

/// On populations of distinct classes, that order is strict and total.
pub proof fn lemma_pop_before(a: (Seq<u8>, u32), b: (Seq<u8>, u32), c: (Seq<u8>, u32))
    ensures
        !pop_before(a, a),
        pop_before(a, b) ==> !pop_before(b, a),
        a.0 != b.0 ==> pop_before(a, b) || pop_before(b, a),
        pop_before(a, b) && pop_before(b, c) ==> pop_before(a, c),
{
    lemma_bytes_lt(a.0, b.0, c.0);
    lemma_bytes_lt(b.0, a.0, c.0);
}

/// Populations strictly in order.
pub open spec fn by_population(v: Seq<(Seq<u8>, u32)>) -> bool {
    forall|i: int, j: int| 0 <= i < j < v.len() ==> pop_before(#[trigger] v[i], #[trigger] v[j])
}

/// The populations a class tally holds.
pub open spec fn populations(t: Seq<(TermView, u32)>) -> Seq<(Seq<u8>, u32)> {
    t.map_values(|e: (TermView, u32)| (e.0.0, e.1))
}

/// Populations as plain values.
pub open spec fn classes_view(v: Seq<(Vec<u8>, u32)>) -> Seq<(Seq<u8>, u32)> {
    v.map_values(|e: (Vec<u8>, u32)| (e.0@, e.1))
}

/// Insert a population in order.
fn insert_population(out: &mut Vec<(Vec<u8>, u32)>, e: (Vec<u8>, u32))
    requires
        by_population(classes_view(old(out)@)),
        forall|j: int| 0 <= j < old(out)@.len() ==> (#[trigger] classes_view(old(out)@)[j]).0 != e.0@,
    ensures
        by_population(classes_view(final(out)@)),
        exists|p: int| 0 <= p <= old(out)@.len() && classes_view(final(out)@) == classes_view(old(out)@).insert(p, (e.0@, e.1)),
{
    let ghost s = classes_view(out@);
    let ghost x = (e.0@, e.1);
    let n = out.len();
    let mut p: usize = 0;
    while p < n && (out[p].1 > e.1 || (out[p].1 == e.1 && bytes_less(out[p].0.as_slice(), e.0.as_slice())))
        invariant
            n == out@.len(),
            p <= n,
            s == classes_view(out@),
            x == (e.0@, e.1),
            forall|j: int| 0 <= j < p ==> pop_before(#[trigger] s[j], x),
        decreases n - p,
    {
        proof {
            assert(s[p as int] == (out@[p as int].0@, out@[p as int].1));
        }
        p = p + 1;
    }
    proof {
        if p < n {
            assert(s[p as int] == (out@[p as int].0@, out@[p as int].1));
            assert(!pop_before(s[p as int], x));
            lemma_pop_before(s[p as int], x, x);
            assert(pop_before(x, s[p as int]));
        }
    }
    out.insert(p, e);
    proof {
        let u = classes_view(out@);
        assert(u =~= s.insert(p as int, x));
        assert forall|i: int, j: int| 0 <= i < j < u.len() implies pop_before(#[trigger] u[i], #[trigger] u[j]) by {
            if j < p {
                assert(u[i] == s[i] && u[j] == s[j]);
            } else if j == p {
                assert(u[i] == s[i]);
            } else if i < p {
                assert(u[i] == s[i] && u[j] == s[j - 1]);
                if j - 1 > p {
                    assert(pop_before(s[p as int], s[j - 1]));
                    lemma_pop_before(x, s[p as int], s[j - 1]);
                }
                lemma_pop_before(s[i], x, s[j - 1]);
            } else if i == p {
                assert(u[j] == s[j - 1]);
                if j - 1 > p {
                    assert(pop_before(s[p as int], s[j - 1]));
                    lemma_pop_before(x, s[p as int], s[j - 1]);
                }
            } else {
                assert(u[i] == s[i - 1] && u[j] == s[j - 1]);
            }
        }
    }
}

/// Class populations of the default graph: how many `rdf:type` assertions
/// name each class, largest first, equal ones by class name.
#[verifier::rlimit(50)]
#[verifier::spinoff_prover]
pub fn schema_classes(rete: &Rete) -> (r: Vec<(Vec<u8>, u32)>)
    requires
        default_triples(*rete).len() <= u32::MAX,
    ensures
        by_population(classes_view(r@)),
        classes_view(r@).len() == class_tally(default_triples(*rete), default_triples(*rete).len() as int).len(),
        forall|x: (Seq<u8>, u32)|
            #[trigger] classes_view(r@).contains(x) <==> populations(
                class_tally(default_triples(*rete), default_triples(*rete).len() as int),
            ).contains(x),
        forall|j: int|
            0 <= j < r@.len() ==> (#[trigger] classes_view(r@)[j]).1 == class_count(
                default_triples(*rete),
                classes_view(r@)[j].0,
                default_triples(*rete).len() as int,
            ),
{
    let ts = rete.dump(None);
    let ghost tv = tts_view(ts@);
    proof {
        assert(tv == default_triples(*rete));
    }
    let typ = RDF_TYPE.as_bytes();
    let n = ts.len();
    let mut tally: Vec<(TermTriple, u32)> = Vec::new();
    let mut i: usize = 0;
    proof {
        lemma_class_tally(tv, 0);
    }
    while i < n
        invariant
            n == ts@.len(),
            i <= n,
            tv == tts_view(ts@),
            tv.len() <= u32::MAX,
            typ@ == type_term(),
            tally_view(tally@) == class_tally(tv, i as int),
        decreases n - i,
    {
        proof {
            assert(tv[i as int] == (ts@[i as int].0@, ts@[i as int].1@, ts@[i as int].2@));
            lemma_class_tally(tv, i as int);
        }
        if bytes_equal(ts[i].1.as_slice(), typ) {
            let key = (copy_bytes(&ts[i].2), Vec::new(), Vec::new());
            proof {
                assert((key.0@, key.1@, key.2@) =~= class_key(tv[i as int].2));
                assert forall|j: int|
                    0 <= j < tally@.len() && tally_view(tally@)[j].0 == (key.0@, key.1@, key.2@) implies #[trigger] tally_view(
                    tally@,
                )[j].1 < u32::MAX by {
                    lemma_entry_count(tally_view(tally@), j);
                    assert(class_count(tv, tv[i as int].2, i as int) <= i);
                }
            }
            tally_push(&mut tally, key);
        }
        i = i + 1;
    }
    let ghost t = tally_view(tally@);
    let ghost pops = populations(t);
    proof {
        lemma_class_tally(tv, n as int);
    }
    let m = tally.len();
    let mut out: Vec<(Vec<u8>, u32)> = Vec::new();
    let mut j: usize = 0;
    while j < m
        invariant
            m == tally@.len(),
            j <= m,
            t == tally_view(tally@),
            pops == populations(t),
            tally_sorted(t),
            forall|q: int| 0 <= q < t.len() ==> #[trigger] t[q].0 == class_key(t[q].0.0),
            by_population(classes_view(out@)),
            classes_view(out@).len() == j,
            forall|x: (Seq<u8>, u32)| #[trigger] classes_view(out@).contains(x) <==> pops.take(j as int).contains(x),
        decreases m - j,
    {
        let e = &tally[j];
        let ghost x = (e.0.0@, e.1);
        proof {
            assert(pops[j as int] == x);
            assert forall|q: int| 0 <= q < out@.len() implies (#[trigger] classes_view(out@)[q]).0 != e.0.0@ by {
                let y = classes_view(out@)[q];
                assert(classes_view(out@).contains(y));
                let pt = pops.take(j as int);
                let w = choose|w: int| 0 <= w < pt.len() && pt[w] == y;
                assert(pops[w] == y);
                if y.0 == e.0.0@ {
                    assert(t[w].0 == class_key(y.0));
                    assert(t[j as int].0 == class_key(e.0.0@));
                    assert(key_lt(t[w].0, t[j as int].0));
                    lemma_bytes_lt(y.0, y.0, y.0);
                }
            }
        }
        let ghost before = classes_view(out@);
        insert_population(&mut out, (copy_bytes(&e.0.0), e.1));
        proof {
            let p = choose|p: int| 0 <= p <= before.len() && classes_view(out@) == before.insert(p, x);
            assert(pops.take(j + 1) =~= pops.take(j as int).push(x));
            assert forall|y: (Seq<u8>, u32)| #[trigger] classes_view(out@).contains(y) <==> pops.take(j + 1).contains(y) by {
                let u = classes_view(out@);
                if u.contains(y) {
                    let w = choose|w: int| 0 <= w < u.len() && u[w] == y;
                    if w < p {
                        assert(before[w] == y);
                        assert(before.contains(y));
                    } else if w > p {
                        assert(before[w - 1] == y);
                        assert(before.contains(y));
                    }
                    assert(pops.take(j + 1)[j as int] == x);
                }
                let pj = pops.take(j + 1);
                if pj.contains(y) {
                    let w = choose|w: int| 0 <= w < pj.len() && pj[w] == y;
                    if w < j {
                        assert(pops.take(j as int)[w] == y);
                        assert(before.contains(y));
                        let v = choose|v: int| 0 <= v < before.len() && before[v] == y;
                        if v < p {
                            assert(u[v] == y);
                        } else {
                            assert(u[v + 1] == y);
                        }
                    } else {
                        assert(u[p] == x);
                    }
                }
            }
        }
        j = j + 1;
    }
    proof {
        assert(pops.take(m as int) =~= pops);
        assert forall|q: int| 0 <= q < out@.len() implies (#[trigger] classes_view(out@)[q]).1 == class_count(
            tv,
            classes_view(out@)[q].0,
            tv.len() as int,
        ) by {
            let y = classes_view(out@)[q];
            assert(classes_view(out@).contains(y));
            let w = choose|w: int| 0 <= w < pops.len() && pops[w] == y;
            lemma_entry_count(t, w);
            assert(t[w].0 == class_key(y.0));
        }
    }
    out
}

} // verus!
