//! Mathematical model of a causal revision graph.
//!
//! A graph maps each revision identity to its statement: the identity itself,
//! the value and the set of direct causal parents. Ancestry is reachability
//! along parent edges; a valid graph is closed under parents and acyclic.
use vstd::prelude::*;

use crate::id::RevisionId;
use crate::order::lex_lt;

verus! {

/// Abstract content of one scalar statement.
pub ghost struct RevisionModel {
    pub id: RevisionId,
    pub value: Seq<u8>,
    pub parents: Set<RevisionId>,
}

/// A causal graph keyed by revision identity.
pub type Graph = Map<RevisionId, RevisionModel>;

/// Every statement is stored under its own identity.
pub open spec fn keys_match(m: Graph) -> bool {
    forall|k: RevisionId| #[trigger] m.contains_key(k) ==> m[k].id == k
}

/// Every direct parent of every statement is present.
pub open spec fn parents_closed(m: Graph) -> bool {
    forall|k: RevisionId, p: RevisionId|
        #[trigger] m.contains_key(k) && #[trigger] m[k].parents.contains(p) ==> m.contains_key(p)
}

/// `p` is a walk along direct parent edges: every element but the last is a
/// present statement whose parents contain the next element.
pub open spec fn is_chain(m: Graph, p: Seq<RevisionId>) -> bool {
    &&& p.len() >= 1
    &&& forall|i: int|
        0 <= i < p.len() - 1 ==> #[trigger] m.contains_key(p[i]) && m[p[i]].parents.contains(
            p[i + 1],
        )
}

/// `to` is a strict causal ancestor of `from`.
pub open spec fn reaches(m: Graph, from: RevisionId, to: RevisionId) -> bool {
    exists|p: Seq<RevisionId>|
        #![trigger is_chain(m, p)]
        is_chain(m, p) && p.len() >= 2 && p[0] == from && p.last() == to
}

/// No statement is its own strict ancestor.
pub open spec fn acyclic(m: Graph) -> bool {
    forall|x: RevisionId| !#[trigger] reaches(m, x, x)
}

/// The graph invariant of every scalar register.
pub open spec fn valid_graph(m: Graph) -> bool {
    &&& m.dom().finite()
    &&& keys_match(m)
    &&& parents_closed(m)
    &&& acyclic(m)
}

/// Present statements that are no statement's direct parent: the causally
/// maximal revisions.
pub open spec fn frontier(m: Graph) -> Set<RevisionId> {
    Set::new(
        |k: RevisionId|
            m.contains_key(k) && forall|x: RevisionId| #[trigger]
                m.contains_key(x) ==> !m[x].parents.contains(k),
    )
}

/// The seeds together with all their strict ancestors.
pub open spec fn closure(m: Graph, seeds: Set<RevisionId>) -> Set<RevisionId> {
    Set::new(
        |y: RevisionId|
            seeds.contains(y) || exists|s: RevisionId| #[trigger]
                seeds.contains(s) && reaches(m, s, y),
    )
}

/// Two graphs agree on every identity they share.
pub open spec fn compatible(a: Graph, b: Graph) -> bool {
    forall|k: RevisionId| #[trigger] a.contains_key(k) && b.contains_key(k) ==> a[k] == b[k]
}

/// `k` is the canonically smallest identity on which two graphs disagree.
pub open spec fn first_conflict(a: Graph, b: Graph, k: RevisionId) -> bool {
    &&& a.contains_key(k)
    &&& b.contains_key(k)
    &&& a[k] != b[k]
    &&& forall|k2: RevisionId|
        #![trigger a.contains_key(k2), b.contains_key(k2)]
        a.contains_key(k2) && b.contains_key(k2) && a[k2] != b[k2] ==> k2 == k || lex_lt(k@, k2@)
}

/// State merge: the union of two compatible graphs, none otherwise.
pub open spec fn merge_graphs(a: Graph, b: Graph) -> Option<Graph> {
    if compatible(a, b) {
        Some(a.union_prefer_right(b))
    } else {
        None
    }
}

// ---------------------------------------------------------------- lemmas

/// One step of a chain.
pub proof fn lemma_chain_at(m: Graph, c: Seq<RevisionId>, i: int)
    requires
        is_chain(m, c),
        0 <= i < c.len() - 1,
    ensures
        m.contains_key(c[i]),
        m[c[i]].parents.contains(c[i + 1]),
{
    assert(m.contains_key(c[i]));
}

/// A single parent edge is a chain.
pub proof fn lemma_edge_reaches(m: Graph, x: RevisionId, p: RevisionId)
    requires
        m.contains_key(x),
        m[x].parents.contains(p),
    ensures
        reaches(m, x, p),
{
    let c = seq![x, p];
    assert(is_chain(m, c));
    assert(c.last() == p);
}

/// Extending a chain by one parent edge at its end.
pub proof fn lemma_reaches_extend(m: Graph, a: RevisionId, b: RevisionId, p: RevisionId)
    requires
        reaches(m, a, b),
        m.contains_key(b),
        m[b].parents.contains(p),
    ensures
        reaches(m, a, p),
{
    let c = choose|c: Seq<RevisionId>| is_chain(m, c) && c.len() >= 2 && c[0] == a && c.last() == b;
    let c2 = c.push(p);
    assert forall|i: int| 0 <= i < c2.len() - 1 implies #[trigger] m.contains_key(c2[i])
        && m[c2[i]].parents.contains(c2[i + 1]) by {
        if i < c.len() - 1 {
            lemma_chain_at(m, c, i);
            assert(c2[i] == c[i] && c2[i + 1] == c[i + 1]);
        } else {
            assert(c2[i] == b);
            assert(c2[i + 1] == p);
        }
    }
    assert(is_chain(m, c2));
    assert(c2.last() == p);
}

/// Prepending a parent edge at the start of a chain.
pub proof fn lemma_reaches_prepend(m: Graph, x: RevisionId, a: RevisionId, b: RevisionId)
    requires
        m.contains_key(x),
        m[x].parents.contains(a),
        reaches(m, a, b),
    ensures
        reaches(m, x, b),
{
    let c = choose|c: Seq<RevisionId>| is_chain(m, c) && c.len() >= 2 && c[0] == a && c.last() == b;
    let c2 = seq![x] + c;
    assert forall|i: int| 0 <= i < c2.len() - 1 implies #[trigger] m.contains_key(c2[i])
        && m[c2[i]].parents.contains(c2[i + 1]) by {
        if i == 0 {
            assert(c2[0] == x && c2[1] == a);
        } else {
            lemma_chain_at(m, c, i - 1);
            assert(c2[i] == c[i - 1] && c2[i + 1] == c[i]);
        }
    }
    assert(is_chain(m, c2));
    assert(c2.last() == b);
}

/// Transitivity of strict ancestry.
pub proof fn lemma_reaches_transitive(m: Graph, a: RevisionId, b: RevisionId, c: RevisionId)
    requires
        reaches(m, a, b),
        reaches(m, b, c),
    ensures
        reaches(m, a, c),
{
    let p = choose|p: Seq<RevisionId>| is_chain(m, p) && p.len() >= 2 && p[0] == a && p.last() == b;
    let q = choose|q: Seq<RevisionId>| is_chain(m, q) && q.len() >= 2 && q[0] == b && q.last() == c;
    let r = p + q.drop_first();
    assert forall|i: int| 0 <= i < r.len() - 1 implies #[trigger] m.contains_key(r[i])
        && m[r[i]].parents.contains(r[i + 1]) by {
        if i < p.len() - 1 {
            lemma_chain_at(m, p, i);
            assert(r[i] == p[i] && r[i + 1] == p[i + 1]);
        } else if i == p.len() - 1 {
            lemma_chain_at(m, q, 0);
            assert(r[i] == b && q[0] == b);
            assert(r[i + 1] == q[1]);
        } else {
            let j = i - p.len() + 1;
            lemma_chain_at(m, q, j);
            assert(r[i] == q[j] && r[i + 1] == q[j + 1]);
        }
    }
    assert(is_chain(m, r));
    assert(r.last() == c);
}

/// The first step of a strict ancestry walk is a direct parent.
pub proof fn lemma_reaches_first_step(m: Graph, a: RevisionId, b: RevisionId)
    requires
        reaches(m, a, b),
    ensures
        m.contains_key(a),
        m[a].parents.contains(b) || exists|p: RevisionId| #[trigger]
            m[a].parents.contains(p) && reaches(m, p, b),
{
    let c = choose|c: Seq<RevisionId>| is_chain(m, c) && c.len() >= 2 && c[0] == a && c.last() == b;
    lemma_chain_at(m, c, 0);
    if c.len() > 2 {
        let d = c.drop_first();
        assert forall|i: int| 0 <= i < d.len() - 1 implies #[trigger] m.contains_key(d[i])
            && m[d[i]].parents.contains(d[i + 1]) by {
            lemma_chain_at(m, c, i + 1);
            assert(d[i] == c[i + 1] && d[i + 1] == c[i + 2]);
        }
        assert(is_chain(m, d));
        assert(d.last() == b);
        assert(reaches(m, c[1], b));
    }
}

/// A set containing the seeds and closed under parents of its present members
/// contains every element of a chain starting in it.
proof fn lemma_chain_stays(m: Graph, s: Set<RevisionId>, c: Seq<RevisionId>, i: int)
    requires
        is_chain(m, c),
        s.contains(c[0]),
        forall|x: RevisionId, p: RevisionId|
            #[trigger] s.contains(x) && m.contains_key(x) && #[trigger] m[x].parents.contains(p)
                ==> s.contains(p),
        0 <= i < c.len(),
    ensures
        s.contains(c[i]),
    decreases i,
{
    if i > 0 {
        lemma_chain_stays(m, s, c, i - 1);
        lemma_chain_at(m, c, i - 1);
    }
}

/// Whatever a member of a parent-closed set reaches lies in the set.
pub proof fn lemma_closed_set_reaches(m: Graph, s: Set<RevisionId>, a: RevisionId, b: RevisionId)
    requires
        s.contains(a),
        forall|x: RevisionId, p: RevisionId|
            #[trigger] s.contains(x) && m.contains_key(x) && #[trigger] m[x].parents.contains(p)
                ==> s.contains(p),
        reaches(m, a, b),
    ensures
        s.contains(b),
{
    let c = choose|c: Seq<RevisionId>| is_chain(m, c) && c.len() >= 2 && c[0] == a && c.last() == b;
    lemma_chain_stays(m, s, c, c.len() - 1);
}

/// A parent-closed superset of the seeds contains their closure.
pub proof fn lemma_closure_minimal(m: Graph, seeds: Set<RevisionId>, s: Set<RevisionId>)
    requires
        seeds.subset_of(s),
        forall|x: RevisionId, p: RevisionId|
            #[trigger] s.contains(x) && m.contains_key(x) && #[trigger] m[x].parents.contains(p)
                ==> s.contains(p),
    ensures
        closure(m, seeds).subset_of(s),
{
    assert forall|y: RevisionId| closure(m, seeds).contains(y) implies s.contains(y) by {
        if !seeds.contains(y) {
            let x = choose|x: RevisionId| #[trigger] seeds.contains(x) && reaches(m, x, y);
            lemma_closed_set_reaches(m, s, x, y);
        }
    }
}

/// The closure is closed under parents of its present members.
pub proof fn lemma_closure_step(m: Graph, seeds: Set<RevisionId>, x: RevisionId, p: RevisionId)
    requires
        closure(m, seeds).contains(x),
        m.contains_key(x),
        m[x].parents.contains(p),
    ensures
        closure(m, seeds).contains(p),
{
    if seeds.contains(x) {
        lemma_edge_reaches(m, x, p);
    } else {
        let s = choose|s: RevisionId| #[trigger] seeds.contains(s) && reaches(m, s, x);
        lemma_reaches_extend(m, s, x, p);
    }
}

/// Strict ancestors of `d` are exactly the closure of its direct parents.
pub proof fn lemma_ancestors_closure(m: Graph, d: RevisionId, a: RevisionId)
    requires
        m.contains_key(d),
    ensures
        reaches(m, d, a) == closure(m, m[d].parents).contains(a),
{
    if reaches(m, d, a) {
        lemma_reaches_first_step(m, d, a);
    }
    if closure(m, m[d].parents).contains(a) {
        if m[d].parents.contains(a) {
            lemma_edge_reaches(m, d, a);
        } else {
            let s = choose|s: RevisionId| #[trigger] m[d].parents.contains(s) && reaches(m, s, a);
            lemma_reaches_prepend(m, d, s, a);
        }
    }
}

/// Every chain in a graph extended by a fresh statement, whose start is an old
/// statement, is a chain of the old graph.
proof fn lemma_chain_old(m: Graph, x: RevisionId, r: RevisionModel, c: Seq<RevisionId>, i: int)
    requires
        !m.contains_key(x),
        parents_closed(m),
        is_chain(m.insert(x, r), c),
        m.contains_key(c[0]),
        0 <= i < c.len(),
    ensures
        forall|j: int| 0 <= j <= i ==> m.contains_key(c[j]) || (j == c.len() - 1 && c[j] != x),
        forall|j: int| 0 <= j < i ==> m[c[j]].parents.contains(c[j + 1]),
    decreases i,
{
    if i > 0 {
        lemma_chain_old(m, x, r, c, i - 1);
        let mi = m.insert(x, r);
        lemma_chain_at(mi, c, i - 1);
        assert(m.contains_key(c[i - 1]));
        assert(mi[c[i - 1]] == m[c[i - 1]]);
        assert(m.contains_key(c[i]));
    }
}

/// The empty graph is valid.
pub proof fn lemma_empty_valid()
    ensures
        valid_graph(Map::<RevisionId, RevisionModel>::empty()),
{
    let m = Map::<RevisionId, RevisionModel>::empty();
    assert forall|y: RevisionId| !#[trigger] reaches(m, y, y) by {
        if reaches(m, y, y) {
            let c = choose|c: Seq<RevisionId>|
                is_chain(m, c) && c.len() >= 2 && c[0] == y && c.last() == y;
            lemma_chain_at(m, c, 0);
        }
    }
}

/// Adding a statement whose parents are present and whose identity is fresh
/// keeps the graph valid.
pub proof fn lemma_insert_valid(m: Graph, x: RevisionId, r: RevisionModel)
    requires
        valid_graph(m),
        !m.contains_key(x),
        r.id == x,
        forall|p: RevisionId| #[trigger] r.parents.contains(p) ==> m.contains_key(p),
    ensures
        valid_graph(m.insert(x, r)),
{
    let mi = m.insert(x, r);
    assert forall|y: RevisionId| !#[trigger] reaches(mi, y, y) by {
        if reaches(mi, y, y) {
            let c = choose|c: Seq<RevisionId>|
                is_chain(mi, c) && c.len() >= 2 && c[0] == y && c.last() == y;
            if y == x {
                // The walk leaves the fresh statement through a present parent and
                // never comes back to it.
                let c1 = c.drop_first();
                assert forall|i: int| 0 <= i < c1.len() - 1 implies #[trigger] mi.contains_key(
                    c1[i],
                ) && mi[c1[i]].parents.contains(c1[i + 1]) by {
                    lemma_chain_at(mi, c, i + 1);
                    assert(c1[i] == c[i + 1] && c1[i + 1] == c[i + 2]);
                }
                assert(is_chain(mi, c1));
                lemma_chain_at(mi, c, 0);
                assert(mi[x].parents.contains(c[1]));
                assert(m.contains_key(c1[0]));
                lemma_chain_old(m, x, r, c1, c1.len() - 1);
                assert(m.contains_key(c1[c1.len() - 1]) || c1[c1.len() - 1] != x);
            } else {
                lemma_chain_at(mi, c, 0);
                assert(m.contains_key(c[0]));
                lemma_chain_old(m, x, r, c, c.len() - 1);
                assert(is_chain(m, c)) by {
                    assert forall|i: int| 0 <= i < c.len() - 1 implies #[trigger] m.contains_key(
                        c[i],
                    ) && m[c[i]].parents.contains(c[i + 1]) by {}
                }
                assert(reaches(m, y, y));
            }
        }
    }
    assert(mi.dom() =~= m.dom().insert(x));
}

/// A walk in a union that starts in one compatible, parent-closed operand stays
/// in that operand.
proof fn lemma_union_chain(a: Graph, b: Graph, c: Seq<RevisionId>, i: int)
    requires
        compatible(a, b),
        parents_closed(a),
        is_chain(a.union_prefer_right(b), c),
        a.contains_key(c[0]),
        0 <= i < c.len(),
    ensures
        forall|j: int| 0 <= j <= i ==> a.contains_key(c[j]),
        forall|j: int| 0 <= j < i ==> a[c[j]].parents.contains(c[j + 1]),
    decreases i,
{
    if i > 0 {
        lemma_union_chain(a, b, c, i - 1);
        let u = a.union_prefer_right(b);
        lemma_chain_at(u, c, i - 1);
        assert(u[c[i - 1]] == a[c[i - 1]]);
    }
}

/// The union of two compatible valid graphs is valid.
pub proof fn lemma_union_valid(a: Graph, b: Graph)
    requires
        valid_graph(a),
        valid_graph(b),
        compatible(a, b),
    ensures
        valid_graph(a.union_prefer_right(b)),
{
    let u = a.union_prefer_right(b);
    assert(compatible(b, a));
    assert(b.union_prefer_right(a) =~= u);
    assert forall|y: RevisionId| !#[trigger] reaches(u, y, y) by {
        if reaches(u, y, y) {
            let c = choose|c: Seq<RevisionId>|
                is_chain(u, c) && c.len() >= 2 && c[0] == y && c.last() == y;
            lemma_chain_at(u, c, 0);
            if a.contains_key(y) {
                lemma_union_chain(a, b, c, c.len() - 1);
                assert(is_chain(a, c));
                assert(reaches(a, y, y));
            } else {
                assert(is_chain(b.union_prefer_right(a), c));
                assert(b.contains_key(c[0]));
                lemma_union_chain(b, a, c, c.len() - 1);
                assert(is_chain(b, c));
                assert(reaches(b, y, y));
            }
        }
    }
    assert forall|k: RevisionId, p: RevisionId|
        #[trigger] u.contains_key(k) && #[trigger] u[k].parents.contains(p) implies u.contains_key(
        p,
    ) by {
        if b.contains_key(k) {
            assert(b.contains_key(p));
        } else {
            assert(a.contains_key(p));
        }
    }
    assert(u.dom() =~= a.dom().union(b.dom()));
    assert forall|k: RevisionId| #[trigger] u.contains_key(k) implies u[k].id == k by {
        if b.contains_key(k) {
            assert(u[k] == b[k]);
        } else {
            assert(u[k] == a[k]);
        }
    }
}

/// A statement whose parents are exactly the frontier becomes the whole new
/// frontier.
pub proof fn lemma_successor_frontier(m: Graph, x: RevisionId, r: RevisionModel)
    requires
        valid_graph(m),
        !m.contains_key(x),
        r.id == x,
        r.parents == frontier(m),
    ensures
        frontier(m.insert(x, r)) == Set::<RevisionId>::empty().insert(x),
{
    let mi = m.insert(x, r);
    assert forall|k: RevisionId| frontier(mi).contains(k) == (k == x) by {
        if k == x {
            assert forall|y: RevisionId| #[trigger] mi.contains_key(y) implies !mi[y].parents.contains(x) by {
                if y != x {
                    assert(mi[y] == m[y]);
                    if m[y].parents.contains(x) {
                        assert(m.contains_key(x));
                    }
                } else {
                    assert(!frontier(m).contains(x));
                }
            }
            assert(mi.contains_key(x));
            assert(frontier(mi).contains(x));
        } else if mi.contains_key(k) {
            assert(m.contains_key(k));
            if frontier(m).contains(k) {
                assert(mi.contains_key(x));
                assert(mi[x].parents.contains(k));
                assert(!frontier(mi).contains(k));
            } else {
                let y = choose|y: RevisionId| #[trigger] m.contains_key(y) && m[y].parents.contains(k);
                assert(mi.contains_key(y) && mi[y] == m[y]);
                assert(!frontier(mi).contains(k));
            }
        }
    }
    assert(frontier(mi) =~= Set::<RevisionId>::empty().insert(x));
}

// ---------------------------------------------------------------- merge laws

/// State merge is commutative.
pub proof fn lemma_merge_commutative(a: Graph, b: Graph)
    ensures
        merge_graphs(a, b) == merge_graphs(b, a),
{
    if compatible(a, b) {
        assert(compatible(b, a));
        assert(a.union_prefer_right(b) =~= b.union_prefer_right(a));
    } else {
        assert(!compatible(b, a));
    }
}

/// State merge is idempotent.
pub proof fn lemma_merge_idempotent(a: Graph)
    ensures
        merge_graphs(a, a) == Some(a),
{
    assert(a.union_prefer_right(a) =~= a);
}

/// State merge is associative: grouping does not change the result.
pub proof fn lemma_merge_associative(a: Graph, b: Graph, c: Graph)
    ensures
        (match merge_graphs(a, b) {
            Some(ab) => merge_graphs(ab, c),
            None => None,
        }) == (match merge_graphs(b, c) {
            Some(bc) => merge_graphs(a, bc),
            None => None,
        }),
{
    let ab = a.union_prefer_right(b);
    let bc = b.union_prefer_right(c);
    if compatible(a, b) && compatible(b, c) && compatible(a, c) {
        assert(compatible(ab, c));
        assert(compatible(a, bc));
        assert(ab.union_prefer_right(c) =~= a.union_prefer_right(bc));
    } else if !compatible(a, b) {
        if compatible(b, c) {
            assert(!compatible(a, bc)) by {
                let k = choose|k: RevisionId| a.contains_key(k) && b.contains_key(k) && a[k] != b[k];
                assert(bc.contains_key(k) && bc[k] == b[k]);
            }
        }
    } else if !compatible(b, c) {
        assert(!compatible(ab, c)) by {
            let k = choose|k: RevisionId| b.contains_key(k) && c.contains_key(k) && b[k] != c[k];
            assert(ab.contains_key(k) && ab[k] == b[k]);
        }
    } else {
        let k = choose|k: RevisionId| a.contains_key(k) && c.contains_key(k) && a[k] != c[k];
        assert(!compatible(ab, c)) by {
            assert(ab.contains_key(k));
            if b.contains_key(k) {
                assert(ab[k] == b[k]);
                assert(b[k] == c[k]);
            } else {
                assert(ab[k] == a[k]);
            }
        }
        assert(!compatible(a, bc)) by {
            assert(bc.contains_key(k));
            if c.contains_key(k) {
                assert(bc[k] == c[k]);
            }
        }
    }
}

/// A stale state cannot roll back a causal descendant: merging a state with
/// one that already holds all of its revisions gives the descendant back, in
/// either order.
pub proof fn lemma_merge_absorbs_stale(stale: Graph, current: Graph)
    requires
        stale.submap_of(current),
    ensures
        merge_graphs(stale, current) == Some(current),
        merge_graphs(current, stale) == Some(current),
{
    assert(compatible(stale, current));
    assert(stale.union_prefer_right(current) =~= current);
    lemma_merge_commutative(stale, current);
}

} // verus!
