//! State-based scalar register over explicit direct causal parents.
//!
//! Causal descendants dominate ancestors. Genuinely concurrent frontier
//! revisions are materialised by canonical `RevisionId` byte order, which is a
//! deterministic tie-break and never a clock.
use vstd::prelude::*;

use crate::error::CoreError;
use crate::graph::{
    acyclic, closure, compatible, frontier, keys_match, lemma_ancestors_closure,
    lemma_closure_minimal, lemma_closure_step, lemma_empty_valid, lemma_insert_valid,
    lemma_union_valid, merge_graphs, first_conflict, parents_closed, reaches, valid_graph, Graph, RevisionModel,
};
use crate::id::RevisionId;
use crate::idset::{lemma_rid_total, lemma_rid_transitive, rid_lt, RevisionSet};
use crate::order::{compare_bytes, lex_lt};

verus! {

broadcast use RevisionId::lemma_view_len;

/// One immutable scalar statement: its identity, value and the causal frontier
/// it observed when it was created.
#[derive(Clone, Debug, PartialEq, Eq)]
pub struct ScalarRevision {
    pub id: RevisionId,
    pub value: Vec<u8>,
    pub parents: RevisionSet,
}

impl View for ScalarRevision {
    type V = RevisionModel;

    open spec fn view(&self) -> RevisionModel {
        RevisionModel { id: self.id, value: self.value@, parents: self.parents@ }
    }
}

impl ScalarRevision {
    pub fn new(id: RevisionId, value: Vec<u8>, parents: RevisionSet) -> (r: Self)
        ensures
            r@ == (RevisionModel { id, value: value@, parents: parents@ }),
    {
        ScalarRevision { id, value, parents }
    }

    /// A copy of the same statement.
    pub fn duplicate(&self) -> (r: Self)
        ensures
            r@ == self@,
    {
        let value = self.value.clone();
        assert(value@ =~= self.value@);
        ScalarRevision { id: self.id, value, parents: self.parents.duplicate() }
    }

    /// Whether two statements are identical.
    pub fn same_statement(&self, other: &ScalarRevision) -> (b: bool)
        ensures
            b == (self@ == other@),
    {
        if !self.id.same(&other.id) {
            return false;
        }
        if compare_bytes(self.value.as_slice(), other.value.as_slice()) != 0 {
            return false;
        }
        self.parents.same(&other.parents)
    }
}

/// Revisions strictly increasing by identity.
pub open spec fn sorted_revs(s: Seq<ScalarRevision>) -> bool {
    forall|i: int, j: int| 0 <= i < j < s.len() ==> rid_lt(#[trigger] s[i].id, #[trigger] s[j].id)
}

/// Whether some revision of `s` carries identity `k`.
pub open spec fn has_id(s: Seq<ScalarRevision>, k: RevisionId) -> bool {
    exists|i: int| 0 <= i < s.len() && #[trigger] s[i].id == k
}

/// The graph held by a sequence of revisions with distinct identities.
pub open spec fn entries_map(s: Seq<ScalarRevision>) -> Graph {
    Map::new(
        |k: RevisionId| has_id(s, k),
        |k: RevisionId| s[choose|i: int| 0 <= i < s.len() && #[trigger] s[i].id == k]@,
    )
}

pub proof fn lemma_sorted_distinct(s: Seq<ScalarRevision>, i: int, j: int)
    requires
        sorted_revs(s),
        0 <= i < s.len(),
        0 <= j < s.len(),
        i != j,
    ensures
        s[i].id != s[j].id,
{
    if i < j {
        lemma_rid_total(s[i].id, s[j].id);
    } else {
        lemma_rid_total(s[j].id, s[i].id);
    }
}

/// The statement stored at each position is the graph's entry for its identity.
pub proof fn lemma_entries_map_at(s: Seq<ScalarRevision>, i: int)
    requires
        sorted_revs(s),
        0 <= i < s.len(),
    ensures
        entries_map(s).contains_key(s[i].id),
        entries_map(s)[s[i].id] == s[i]@,
{
    assert(has_id(s, s[i].id));
    let j = choose|j: int| 0 <= j < s.len() && #[trigger] s[j].id == s[i].id;
    if j != i {
        lemma_sorted_distinct(s, i, j);
    }
}

pub proof fn lemma_entries_map_basic(s: Seq<ScalarRevision>)
    requires
        sorted_revs(s),
    ensures
        entries_map(s).dom().finite(),
        entries_map(s).dom().len() == s.len(),
        keys_match(entries_map(s)),
{
    let ids = s.map_values(|r: ScalarRevision| r.id);
    assert(entries_map(s).dom() =~= ids.to_set()) by {
        assert forall|k: RevisionId| entries_map(s).dom().contains(k) implies ids.to_set().contains(
            k,
        ) by {
            let i = choose|i: int| 0 <= i < s.len() && #[trigger] s[i].id == k;
            assert(ids[i] == k);
        }
        assert forall|k: RevisionId| ids.to_set().contains(k) implies entries_map(
            s,
        ).dom().contains(k) by {
            let i = choose|i: int| 0 <= i < ids.len() && ids[i] == k;
            assert(s[i].id == k);
        }
    }
    assert(ids.no_duplicates()) by {
        assert forall|i: int, j: int| 0 <= i < ids.len() && 0 <= j < ids.len() && i != j implies ids[i]
            != ids[j] by {
            lemma_sorted_distinct(s, i, j);
        }
    }
    ids.unique_seq_to_set();
    vstd::seq_lib::seq_to_set_is_finite(ids);
    assert forall|k: RevisionId| #[trigger] entries_map(s).contains_key(k) implies entries_map(
        s,
    )[k].id == k by {
        let i = choose|i: int| 0 <= i < s.len() && #[trigger] s[i].id == k;
        lemma_entries_map_at(s, i);
    }
}

/// Inserting a fresh revision at its sorted position.
pub proof fn lemma_entries_map_insert(s: Seq<ScalarRevision>, pos: int, r: ScalarRevision)
    requires
        sorted_revs(s),
        0 <= pos <= s.len(),
        forall|j: int| 0 <= j < pos ==> rid_lt(#[trigger] s[j].id, r.id),
        forall|j: int| pos <= j < s.len() ==> rid_lt(r.id, #[trigger] s[j].id),
    ensures
        sorted_revs(s.insert(pos, r)),
        entries_map(s.insert(pos, r)) == entries_map(s).insert(r.id, r@),
        !entries_map(s).contains_key(r.id),
{
    let t = s.insert(pos, r);
    assert forall|a: int, b: int| 0 <= a < b < t.len() implies rid_lt(
        #[trigger] t[a].id,
        #[trigger] t[b].id,
    ) by {
        if b < pos {
        } else if b == pos {
        } else if a < pos {
            lemma_rid_transitive(t[a].id, r.id, t[b].id);
        } else if a == pos {
        } else {
        }
    }
    assert(!entries_map(s).contains_key(r.id)) by {
        if has_id(s, r.id) {
            let k = choose|k: int| 0 <= k < s.len() && #[trigger] s[k].id == r.id;
            lemma_rid_total(r.id, r.id);
        }
    }
    let m1 = entries_map(t);
    let m2 = entries_map(s).insert(r.id, r@);
    assert forall|k: RevisionId| m1.contains_key(k) == m2.contains_key(k) by {
        if has_id(t, k) {
            let i = choose|i: int| 0 <= i < t.len() && #[trigger] t[i].id == k;
            if i < pos {
                assert(s[i].id == k);
            } else if i > pos {
                assert(s[i - 1].id == k);
            }
        }
        if has_id(s, k) {
            let i = choose|i: int| 0 <= i < s.len() && #[trigger] s[i].id == k;
            if i < pos {
                assert(t[i].id == k);
            } else {
                assert(t[i + 1].id == k);
            }
        }
        if k == r.id {
            assert(t[pos].id == k);
        }
    }
    assert forall|k: RevisionId| m1.contains_key(k) implies m1[k] == m2[k] by {
        let i = choose|i: int| 0 <= i < t.len() && #[trigger] t[i].id == k;
        lemma_entries_map_at(t, i);
        if i < pos {
            lemma_entries_map_at(s, i);
        } else if i > pos {
            lemma_entries_map_at(s, i - 1);
        }
    }
    assert(m1 =~= m2);
}

/// Replacing the statement at one position by another with the same identity.
pub proof fn lemma_entries_map_update(s: Seq<ScalarRevision>, i: int, r: ScalarRevision)
    requires
        sorted_revs(s),
        0 <= i < s.len(),
        r.id == s[i].id,
    ensures
        sorted_revs(s.update(i, r)),
        entries_map(s.update(i, r)) == entries_map(s).insert(r.id, r@),
{
    let t = s.update(i, r);
    assert(sorted_revs(t)) by {
        assert forall|a: int, b: int| 0 <= a < b < t.len() implies rid_lt(#[trigger] t[a].id, #[trigger] t[b].id) by {
            assert(t[a].id == s[a].id);
            assert(t[b].id == s[b].id);
        }
    }
    let m1 = entries_map(t);
    let m2 = entries_map(s).insert(r.id, r@);
    assert forall|k: RevisionId| m1.contains_key(k) == m2.contains_key(k) by {
        if has_id(t, k) {
            let j = choose|j: int| 0 <= j < t.len() && #[trigger] t[j].id == k;
            assert(s[j].id == k);
        }
        if has_id(s, k) {
            let j = choose|j: int| 0 <= j < s.len() && #[trigger] s[j].id == k;
            assert(t[j].id == k);
        }
    }
    assert forall|k: RevisionId| m1.contains_key(k) implies m1[k] == m2[k] by {
        let j = choose|j: int| 0 <= j < t.len() && #[trigger] t[j].id == k;
        lemma_entries_map_at(t, j);
        if j != i {
            lemma_entries_map_at(s, j);
            lemma_sorted_distinct(s, i, j);
        }
    }
    assert(m1 =~= m2);
}

/// Finds the position of a revision identity by linear scan.
pub fn find_revision(s: &Vec<ScalarRevision>, id: &RevisionId) -> (r: Option<usize>)
    ensures
        r matches Some(i) ==> i < s@.len() && s@[i as int].id == *id,
        r is None ==> !has_id(s@, *id),
{
    let mut i: usize = 0;
    while i < s.len()
        invariant
            i <= s.len(),
            forall|j: int| 0 <= j < i ==> s@[j].id != *id,
        decreases s.len() - i,
    {
        if s[i].id.same(id) {
            return Some(i);
        }
        i = i + 1;
    }
    None
}

/// Inserts a revision with a fresh identity at its canonical position.
pub(crate) fn insert_sorted(s: &mut Vec<ScalarRevision>, r: ScalarRevision)
    requires
        sorted_revs(old(s)@),
        !has_id(old(s)@, r.id),
    ensures
        sorted_revs(final(s)@),
        entries_map(final(s)@) == entries_map(old(s)@).insert(r.id, r@),
        final(s)@.len() == old(s)@.len() + 1,
{
    let mut i: usize = 0;
    while i < s.len() && s[i].id.compare(&r.id) < 0
        invariant
            i <= s.len(),
            s@ == old(s)@,
            forall|j: int| 0 <= j < i ==> rid_lt(#[trigger] s@[j].id, r.id),
        decreases s.len() - i,
    {
        i = i + 1;
    }
    proof {
        assert forall|j: int| i <= j < s@.len() implies rid_lt(r.id, #[trigger] s@[j].id) by {
            lemma_rid_total(s@[i as int].id, r.id);
            assert(s@[i as int].id != r.id);
            if j > i {
                lemma_rid_transitive(r.id, s@[i as int].id, s@[j].id);
            }
        }
        lemma_entries_map_insert(s@, i as int, r);
    }
    s.insert(i, r);
}


/// Number of `true` entries.
pub open spec fn count_true(s: Seq<bool>) -> nat
    decreases s.len(),
{
    if s.len() == 0 {
        0
    } else {
        count_true(s.drop_last()) + if s.last() {
            1nat
        } else {
            0nat
        }
    }
}

pub proof fn lemma_count_true_bound(s: Seq<bool>)
    ensures
        count_true(s) <= s.len(),
    decreases s.len(),
{
    if s.len() > 0 {
        lemma_count_true_bound(s.drop_last());
    }
}

pub proof fn lemma_count_true_set(s: Seq<bool>, i: int)
    requires
        0 <= i < s.len(),
        !s[i],
    ensures
        count_true(s.update(i, true)) == count_true(s) + 1,
    decreases s.len(),
{
    let t = s.update(i, true);
    if i == s.len() - 1 {
        assert(t.drop_last() =~= s.drop_last());
    } else {
        assert(t.drop_last() =~= s.drop_last().update(i, true));
        lemma_count_true_set(s.drop_last(), i);
    }
}

/// The identities at marked positions.
pub open spec fn marked_ids(s: Seq<ScalarRevision>, marks: Seq<bool>) -> Set<RevisionId> {
    Set::new(|k: RevisionId| exists|i: int| 0 <= i < s.len() && marks[i] && #[trigger] s[i].id == k)
}

/// `(r, p)` is a dangling parent reference.
pub open spec fn missing_pair(m: Graph, r: RevisionId, p: RevisionId) -> bool {
    m.contains_key(r) && m[r].parents.contains(p) && !m.contains_key(p)
}

/// `(r, p)` is the canonically first dangling parent reference: the smallest
/// statement identity with one, and its smallest missing parent.
pub open spec fn first_missing_pair(m: Graph, r: RevisionId, p: RevisionId) -> bool {
    &&& missing_pair(m, r, p)
    &&& forall|r2: RevisionId, p2: RevisionId| #[trigger]
        missing_pair(m, r2, p2) ==> rid_lt(r, r2) || (r == r2 && (p == p2 || rid_lt(p, p2)))
}

/// The canonically smallest missing parent of a statement with parents `ps`.
pub open spec fn first_missing_parent(ps: Set<RevisionId>, dom: Set<RevisionId>, p: RevisionId) -> bool {
    &&& ps.contains(p)
    &&& !dom.contains(p)
    &&& forall|q: RevisionId| #[trigger] ps.contains(q) && rid_lt(q, p) ==> dom.contains(q)
}

/// Looks for a dangling parent reference, scanning statements and their parents
/// in canonical order.
fn find_missing_parent(s: &Vec<ScalarRevision>) -> (r: Option<(RevisionId, RevisionId)>)
    requires
        sorted_revs(s@),
    ensures
        r is None <==> parents_closed(entries_map(s@)),
        r matches Some((a, b)) ==> first_missing_pair(entries_map(s@), a, b),
{
    let ghost m = entries_map(s@);
    let mut i: usize = 0;
    while i < s.len()
        invariant
            i <= s.len(),
            sorted_revs(s@),
            m == entries_map(s@),
            forall|i2: int, p: RevisionId|
                #![trigger s@[i2].parents@.contains(p)]
                0 <= i2 < i && s@[i2].parents@.contains(p) ==> m.contains_key(p),
        decreases s.len() - i,
    {
        let ps = s[i].parents.to_vec();
        let mut k: usize = 0;
        while k < ps.len()
            invariant
                k <= ps.len(),
                i < s.len(),
                sorted_revs(s@),
                m == entries_map(s@),
                ps@.to_set() == s@[i as int].parents@,
                crate::idset::sorted_ids(ps@),
                forall|i2: int, p: RevisionId|
                    #![trigger s@[i2].parents@.contains(p)]
                    0 <= i2 < i && s@[i2].parents@.contains(p) ==> m.contains_key(p),
                forall|k2: int| 0 <= k2 < k ==> m.contains_key(#[trigger] ps@[k2]),
            decreases ps.len() - k,
        {
            if find_revision(s, &ps[k]).is_none() {
                proof {
                    let a = s@[i as int].id;
                    let b = ps@[k as int];
                    lemma_entries_map_at(s@, i as int);
                    assert(ps@.to_set().contains(b));
                    assert(missing_pair(m, a, b));
                    assert forall|r2: RevisionId, p2: RevisionId| #[trigger]
                        missing_pair(m, r2, p2) implies rid_lt(a, r2) || (a == r2 && (p2 == b
                        || rid_lt(b, p2))) by {
                        let i2 = choose|i2: int| 0 <= i2 < s@.len() && #[trigger] s@[i2].id == r2;
                        lemma_entries_map_at(s@, i2);
                        if i2 < i {
                        } else if i2 == i {
                            let k2 = choose|k2: int| 0 <= k2 < ps@.len() && ps@[k2] == p2;
                            if k2 < k {
                            } else if k2 > k {
                                assert(crate::idset::rid_lt(ps@[k as int], ps@[k2]));
                            }
                        } else {
                        }
                    }
                }
                return Some((s[i].id, ps[k]));
            }
            proof {
                let b = ps@[k as int];
                let j = choose|j: int| 0 <= j < s@.len() && #[trigger] s@[j].id == b;
                lemma_entries_map_at(s@, j);
            }
            k = k + 1;
        }
        proof {
            assert forall|i2: int, p: RevisionId|
                #![trigger s@[i2].parents@.contains(p)]
                0 <= i2 <= i && s@[i2].parents@.contains(p) implies m.contains_key(p) by {
                if i2 == i {
                    let k2 = choose|k2: int| 0 <= k2 < ps@.len() && ps@[k2] == p;
                }
            }
        }
        i = i + 1;
    }
    proof {
        assert forall|k: RevisionId, p: RevisionId|
            #[trigger] m.contains_key(k) && #[trigger] m[k].parents.contains(p) implies m.contains_key(p) by {
            let i2 = choose|i2: int| 0 <= i2 < s@.len() && #[trigger] s@[i2].id == k;
            lemma_entries_map_at(s@, i2);
        }
    }
    None
}


/// Looks for a parent of statement `i` whose position is unmarked.
fn unmarked_parent(s: &Vec<ScalarRevision>, i: usize, marks: &Vec<bool>) -> (r: Option<usize>)
    requires
        sorted_revs(s@),
        parents_closed(entries_map(s@)),
        i < s@.len(),
        marks@.len() == s@.len(),
    ensures
        r is None ==> forall|p: RevisionId| #[trigger] s@[i as int].parents@.contains(p) ==> marked_ids(s@, marks@).contains(p),
        r matches Some(j) ==> j < s@.len() && !marks@[j as int] && s@[i as int].parents@.contains(s@[j as int].id),
{
    let ps = s[i].parents.to_vec();
    let mut k: usize = 0;
    while k < ps.len()
        invariant
            i < s@.len(),
            sorted_revs(s@),
            parents_closed(entries_map(s@)),
            marks@.len() == s@.len(),
            ps@.to_set() == s@[i as int].parents@,
            k <= ps.len(),
            forall|k2: int| 0 <= k2 < k ==> marked_ids(s@, marks@).contains(#[trigger] ps@[k2]),
        decreases ps.len() - k,
    {
        proof {
            assert(ps@.to_set().contains(ps@[k as int]));
            lemma_parent_present(s@, i as int, ps@[k as int]);
        }
        match find_revision(s, &ps[k]) {
            Some(j) => {
                proof {
                    lemma_marked_ids_at(s@, marks@, j as int);
                }
                if !marks[j] {
                    return Some(j);
                }
            },
            None => {},
        }
        k = k + 1;
    }
    proof {
        assert forall|p: RevisionId| #[trigger] s@[i as int].parents@.contains(p) implies marked_ids(s@, marks@).contains(p) by {
            assert(ps@.to_set().contains(p));
            let k2 = choose|k2: int| 0 <= k2 < ps@.len() && ps@[k2] == p;
        }
    }
    None
}

/// The identity at a position is marked exactly when the position is.
proof fn lemma_marked_ids_at(s: Seq<ScalarRevision>, marks: Seq<bool>, j: int)
    requires
        sorted_revs(s),
        marks.len() == s.len(),
        0 <= j < s.len(),
    ensures
        marked_ids(s, marks).contains(s[j].id) == marks[j],
{
    if marked_ids(s, marks).contains(s[j].id) {
        let i = choose|i: int| 0 <= i < s.len() && marks[i] && #[trigger] s[i].id == s[j].id;
        if i != j {
            lemma_sorted_distinct(s, i, j);
        }
    }
}

/// A parent of a statement in a parent-closed sequence is itself stored.
proof fn lemma_parent_present(s: Seq<ScalarRevision>, i: int, p: RevisionId)
    requires
        sorted_revs(s),
        parents_closed(entries_map(s)),
        0 <= i < s.len(),
        s[i].parents@.contains(p),
    ensures
        has_id(s, p),
{
    lemma_entries_map_at(s, i);
    let m = entries_map(s);
    assert(m.contains_key(s[i].id) && m[s[i].id].parents.contains(p));
}

/// A walk along parent edges that returns to one of its own positions closes a
/// cycle through that position.
proof fn lemma_path_cycle(s: Seq<ScalarRevision>, path: Seq<int>, t: int)
    requires
        sorted_revs(s),
        path.len() >= 1,
        0 <= t < path.len(),
        forall|q: int| 0 <= q < path.len() ==> 0 <= #[trigger] path[q] < s.len(),
        forall|q: int|
            0 <= q < path.len() - 1 ==> s[#[trigger] path[q]].parents@.contains(s[path[q + 1]].id),
        s[path.last()].parents@.contains(s[path[t]].id),
    ensures
        entries_map(s).contains_key(s[path[t]].id),
        reaches(entries_map(s), s[path[t]].id, s[path[t]].id),
{
    let m = entries_map(s);
    let tail = path.subrange(t, path.len() as int);
    let c = tail.map_values(|x: int| s[x].id).push(s[path[t]].id);
    assert forall|q: int| 0 <= q < c.len() - 1 implies #[trigger] m.contains_key(c[q])
        && m[c[q]].parents.contains(c[q + 1]) by {
        assert(tail[q] == path[t + q]);
        assert(c[q] == s[path[t + q]].id);
        lemma_entries_map_at(s, path[t + q]);
        if q < c.len() - 2 {
            assert(tail[q + 1] == path[t + q + 1]);
            assert(c[q + 1] == s[path[t + q + 1]].id);
        } else {
            assert(t + q == path.len() - 1);
        }
    }
    assert(crate::graph::is_chain(m, c));
    assert(c[0] == s[path[t]].id);
    assert(c.last() == s[path[t]].id);
    lemma_entries_map_at(s, path[t]);
}

// ---------------------------------------------------------------- depth-first cycle search

/// The members of a set of identities in canonical order.
pub open spec fn canonical_order(ids: Set<RevisionId>) -> Seq<RevisionId> {
    choose|q: Seq<RevisionId>| crate::idset::sorted_ids(q) && q.to_set() == ids
}

/// The direct parents of a statement in canonical order.
pub open spec fn parent_order(m: Graph, x: RevisionId) -> Seq<RevisionId> {
    if m.contains_key(x) {
        canonical_order(m[x].parents)
    } else {
        Seq::empty()
    }
}

/// A depth-first visit of `x` with `path` the statements being visited and
/// `done` those whose visit completed, parents taken in canonical order, at
/// most `depth` levels deep: the completed statements afterwards, or the
/// first statement met again while it was still being visited.
pub open spec fn dfs_visit(
    m: Graph,
    x: RevisionId,
    path: Set<RevisionId>,
    done: Set<RevisionId>,
    depth: nat,
) -> Result<Set<RevisionId>, RevisionId>
    decreases depth, 0nat,
{
    if done.contains(x) {
        Ok(done)
    } else if path.contains(x) || depth == 0 {
        Err(x)
    } else {
        match dfs_list(m, parent_order(m, x), path.insert(x), done, (depth - 1) as nat) {
            Ok(d) => Ok(d.insert(x)),
            Err(y) => Err(y),
        }
    }
}

/// Depth-first visits of `xs` in order, the first revisit ending them.
pub open spec fn dfs_list(
    m: Graph,
    xs: Seq<RevisionId>,
    path: Set<RevisionId>,
    done: Set<RevisionId>,
    depth: nat,
) -> Result<Set<RevisionId>, RevisionId>
    decreases depth, xs.len() + 1,
{
    if xs.len() == 0 {
        Ok(done)
    } else {
        match dfs_visit(m, xs[0], path, done, depth) {
            Err(y) => Err(y),
            Ok(d) => dfs_list(m, xs.drop_first(), path, d, depth),
        }
    }
}

/// The depth-first search of a whole graph: every statement in canonical
/// order is visited, each visit taking parents in canonical order; the result
/// is the first statement met again while it was still being visited, if
/// any. No path is longer than the graph, so the depth bound never cuts a
/// visit short.
pub open spec fn first_revisited(m: Graph) -> Result<Set<RevisionId>, RevisionId> {
    dfs_list(m, canonical_order(m.dom()), Set::empty(), Set::empty(), m.dom().len() + 1)
}

/// Updating one mark adds or removes exactly that statement's identity.
proof fn lemma_marked_update(s: Seq<ScalarRevision>, marks: Seq<bool>, i: int, b: bool)
    requires
        sorted_revs(s),
        marks.len() == s.len(),
        0 <= i < s.len(),
    ensures
        marked_ids(s, marks.update(i, b)) == (if b {
            marked_ids(s, marks).insert(s[i].id)
        } else {
            marked_ids(s, marks).remove(s[i].id)
        }),
{
    let t = marks.update(i, b);
    let goal = if b {
        marked_ids(s, marks).insert(s[i].id)
    } else {
        marked_ids(s, marks).remove(s[i].id)
    };
    assert forall|k: RevisionId| marked_ids(s, t).contains(k) == goal.contains(k) by {
        if marked_ids(s, t).contains(k) {
            let j = choose|j: int| 0 <= j < s.len() && t[j] && #[trigger] s[j].id == k;
            if j != i {
                lemma_sorted_distinct(s, i, j);
                assert(marked_ids(s, marks).contains(k));
            }
        }
        if goal.contains(k) {
            if k == s[i].id {
                assert(t[i] == b);
            } else {
                let j = choose|j: int| 0 <= j < s.len() && marks[j] && #[trigger] s[j].id == k;
                assert(t[j]);
            }
        }
    }
    assert(marked_ids(s, t) =~= goal);
}

/// A canonically ordered sequence is the canonical order of its members.
proof fn lemma_canonical_order(q: Seq<RevisionId>)
    requires
        crate::idset::sorted_ids(q),
    ensures
        canonical_order(q.to_set()) == q,
{
    let c = canonical_order(q.to_set());
    assert(crate::idset::sorted_ids(c) && c.to_set() == q.to_set());
    crate::idset::lemma_sorted_unique(c, q);
}

/// The identities of a sorted sequence of statements.
proof fn lemma_ids_order(s: Seq<ScalarRevision>)
    requires
        sorted_revs(s),
    ensures
        canonical_order(entries_map(s).dom()) == s.map_values(|r: ScalarRevision| r.id),
{
    let q = s.map_values(|r: ScalarRevision| r.id);
    assert(crate::idset::sorted_ids(q));
    assert(q.to_set() =~= entries_map(s).dom()) by {
        assert forall|k: RevisionId| q.to_set().contains(k) == entries_map(s).dom().contains(k) by {
            if q.to_set().contains(k) {
                let i = choose|i: int| 0 <= i < q.len() && q[i] == k;
                assert(has_id(s, k));
            }
            if entries_map(s).dom().contains(k) {
                let i = choose|i: int| 0 <= i < s.len() && #[trigger] s[i].id == k;
                assert(q[i] == k);
            }
        }
    }
    lemma_canonical_order(q);
}

/// One depth-first visit of the statement at `x`. `onpath` marks the
/// statements being visited, in the order `ipath`, each the parent of the
/// one before; `done` marks the completed ones.
fn dfs_visit_at(
    s: &Vec<ScalarRevision>,
    x: usize,
    onpath: &mut Vec<bool>,
    done: &mut Vec<bool>,
    Ghost(ipath): Ghost<Seq<int>>,
    Ghost(depth): Ghost<nat>,
) -> (r: Result<(), RevisionId>)
    requires
        sorted_revs(s@),
        parents_closed(entries_map(s@)),
        x < s@.len(),
        old(onpath)@.len() == s@.len(),
        old(done)@.len() == s@.len(),
        forall|i: int| 0 <= i < s@.len() ==> (old(onpath)@[i] <==> ipath.contains(i)),
        forall|q: int| 0 <= q < ipath.len() ==> 0 <= #[trigger] ipath[q] < s@.len(),
        forall|q: int|
            0 <= q < ipath.len() - 1 ==> s@[#[trigger] ipath[q]].parents@.contains(s@[ipath[q + 1]].id),
        ipath.len() > 0 ==> s@[ipath.last()].parents@.contains(s@[x as int].id),
        count_true(old(onpath)@) == ipath.len(),
        depth + ipath.len() > s@.len(),
    ensures
        final(done)@.len() == s@.len(),
        match dfs_visit(entries_map(s@), s@[x as int].id, marked_ids(s@, old(onpath)@), marked_ids(s@, old(done)@), depth) {
            Ok(d) => r is Ok && final(onpath)@ == old(onpath)@ && marked_ids(s@, final(done)@) == d,
            Err(y) => r == Err::<(), RevisionId>(y),
        },
        r matches Err(y) ==> entries_map(s@).contains_key(y) && reaches(entries_map(s@), y, y),
    decreases depth,
{
    let ghost m = entries_map(s@);
    let ghost p0 = marked_ids(s@, onpath@);
    let ghost d0 = marked_ids(s@, done@);
    let ghost xid = s@[x as int].id;
    proof {
        lemma_marked_ids_at(s@, onpath@, x as int);
        lemma_marked_ids_at(s@, done@, x as int);
    }
    if done[x] {
        return Ok(());
    }
    if onpath[x] {
        proof {
            assert(ipath.contains(x as int));
            let t = choose|t: int| 0 <= t < ipath.len() && ipath[t] == x as int;
            lemma_path_cycle(s@, ipath, t);
        }
        return Err(s[x].id);
    }
    proof {
        lemma_count_true_set(onpath@, x as int);
        lemma_count_true_bound(onpath@.update(x as int, true));
        lemma_marked_update(s@, onpath@, x as int, true);
    }
    let ghost before_on = onpath@;
    onpath.set(x, true);
    let ghost ipath2 = ipath.push(x as int);
    let ghost p1 = marked_ids(s@, onpath@);
    let ps = s[x].parents.to_vec();
    proof {
        lemma_entries_map_at(s@, x as int);
        lemma_canonical_order(ps@);
        assert(ps@ == parent_order(m, xid));
        assert forall|i: int| 0 <= i < s@.len() implies (onpath@[i] <==> ipath2.contains(i)) by {
            if i == x {
                assert(ipath2[ipath2.len() - 1] == i);
            } else if ipath.contains(i) {
                let t = choose|t: int| 0 <= t < ipath.len() && ipath[t] == i;
                assert(ipath2[t] == i);
            } else if ipath2.contains(i) {
                let t = choose|t: int| 0 <= t < ipath2.len() && ipath2[t] == i;
                assert(t < ipath.len());
                assert(ipath[t] == i);
            }
        }
        assert forall|q: int| 0 <= q < ipath2.len() - 1 implies s@[#[trigger] ipath2[q]].parents@.contains(s@[ipath2[q + 1]].id) by {
            if q < ipath.len() - 1 {
                assert(ipath2[q] == ipath[q] && ipath2[q + 1] == ipath[q + 1]);
            } else {
                assert(ipath2[q] == ipath.last() && ipath2[q + 1] == x);
            }
        }
        assert(dfs_visit(m, xid, p0, d0, depth) == match dfs_list(m, ps@, p1, d0, (depth - 1) as nat) {
            Ok(d) => Ok(d.insert(xid)),
            Err(y) => Err::<Set<RevisionId>, RevisionId>(y),
        });
    }
    let mut k: usize = 0;
    proof {
        assert(ps@.skip(0) =~= ps@);
    }
    while k < ps.len()
        invariant
            k <= ps@.len(),
            sorted_revs(s@),
            parents_closed(m),
            m == entries_map(s@),
            x < s@.len(),
            depth > 0,
            onpath@.len() == s@.len(),
            done@.len() == s@.len(),
            onpath@ == before_on.update(x as int, true),
            p1 == marked_ids(s@, onpath@),
            forall|i: int| 0 <= i < s@.len() ==> (onpath@[i] <==> ipath2.contains(i)),
            forall|q: int| 0 <= q < ipath2.len() ==> 0 <= #[trigger] ipath2[q] < s@.len(),
            forall|q: int|
                0 <= q < ipath2.len() - 1 ==> s@[#[trigger] ipath2[q]].parents@.contains(s@[ipath2[q + 1]].id),
            ipath2.last() == x as int,
            count_true(onpath@) == ipath2.len(),
            (depth - 1) + ipath2.len() > s@.len(),
            ps@.to_set() == s@[x as int].parents@,
            dfs_list(m, ps@, p1, d0, (depth - 1) as nat) == dfs_list(m, ps@.skip(k as int), p1, marked_ids(s@, done@), (depth - 1) as nat),
            xid == s@[x as int].id,
            p0 == marked_ids(s@, old(onpath)@),
            d0 == marked_ids(s@, old(done)@),
            dfs_visit(m, xid, p0, d0, depth) == match dfs_list(m, ps@, p1, d0, (depth - 1) as nat) {
                Ok(d) => Ok(d.insert(xid)),
                Err(y) => Err::<Set<RevisionId>, RevisionId>(y),
            },
        decreases ps@.len() - k,
    {
        let ghost rest = ps@.skip(k as int);
        let ghost dk = marked_ids(s@, done@);
        proof {
            assert(rest[0] == ps@[k as int]);
            assert(rest.drop_first() =~= ps@.skip(k as int + 1));
            assert(ps@.to_set().contains(ps@[k as int]));
            lemma_parent_present(s@, x as int, ps@[k as int]);
        }
        let j = match find_revision(s, &ps[k]) {
            Some(j) => j,
            None => {
                proof {
                    assert(false);
                }
                return Ok(());
            },
        };
        let sub = dfs_visit_at(s, j, onpath, done, Ghost(ipath2), Ghost((depth - 1) as nat));
        match sub {
            Err(y) => {
                proof {
                    assert(dfs_list(m, rest, p1, dk, (depth - 1) as nat) == Err::<Set<RevisionId>, RevisionId>(y));
                    assert(dfs_list(m, ps@, p1, d0, (depth - 1) as nat) == Err::<Set<RevisionId>, RevisionId>(y));
                    assert(dfs_visit(m, xid, p0, d0, depth) == Err::<Set<RevisionId>, RevisionId>(y));
                }
                return Err(y);
            },
            Ok(()) => {},
        }
        k = k + 1;
    }
    proof {
        assert(ps@.skip(k as int) =~= Seq::<RevisionId>::empty());
        lemma_marked_update(s@, onpath@, x as int, false);
        lemma_marked_update(s@, done@, x as int, true);
        assert(onpath@.update(x as int, false) =~= before_on);
        assert(marked_ids(s@, onpath@).remove(xid) =~= p0) by {
            assert(!p0.contains(xid));
        }
    }
    onpath.set(x, false);
    done.set(x, true);
    Ok(())
}

/// The depth-first search over all statements, in canonical order.
fn dfs_search(s: &Vec<ScalarRevision>) -> (r: Option<RevisionId>)
    requires
        sorted_revs(s@),
        parents_closed(entries_map(s@)),
    ensures
        match first_revisited(entries_map(s@)) {
            Ok(_) => r is None,
            Err(y) => r == Some(y),
        },
        r matches Some(y) ==> entries_map(s@).contains_key(y) && reaches(entries_map(s@), y, y),
        r is None <==> acyclic(entries_map(s@)),
{
    let ghost m = entries_map(s@);
    let ghost ids = s@.map_values(|r: ScalarRevision| r.id);
    let n = s.len();
    let mut onpath: Vec<bool> = Vec::new();
    let mut done: Vec<bool> = Vec::new();
    let mut i: usize = 0;
    while i < n
        invariant
            i <= n,
            n == s@.len(),
            onpath@.len() == i,
            done@.len() == i,
            forall|j: int| 0 <= j < i ==> !onpath@[j] && !done@[j],
        decreases n - i,
    {
        onpath.push(false);
        done.push(false);
        i = i + 1;
    }
    proof {
        lemma_entries_map_basic(s@);
        lemma_ids_order(s@);
        assert(marked_ids(s@, onpath@) =~= Set::<RevisionId>::empty());
        assert(marked_ids(s@, done@) =~= Set::<RevisionId>::empty());
        assert(count_true(onpath@) == 0) by {
            lemma_count_zero(onpath@);
        }
        assert(ids.skip(0) =~= ids);
        assert(m.dom().len() == n);
    }
    let ghost depth: nat = (n + 1) as nat;
    let mut k: usize = 0;
    while k < n
        invariant
            k <= n,
            n == s@.len(),
            sorted_revs(s@),
            parents_closed(m),
            m == entries_map(s@),
            ids == s@.map_values(|r: ScalarRevision| r.id),
            depth == n + 1,
            onpath@.len() == n,
            done@.len() == n,
            forall|j: int| 0 <= j < n ==> !onpath@[j],
            marked_ids(s@, onpath@) == Set::<RevisionId>::empty(),
            count_true(onpath@) == 0,
            first_revisited(m) == dfs_list(m, ids.skip(k as int), Set::empty(), marked_ids(s@, done@), depth),
        decreases n - k,
    {
        proof {
            let rest = ids.skip(k as int);
            assert(rest[0] == s@[k as int].id);
            assert(rest.drop_first() =~= ids.skip(k as int + 1));
        }
        let sub = dfs_visit_at(s, k, &mut onpath, &mut done, Ghost(Seq::empty()), Ghost(depth));
        match sub {
            Err(y) => {
                return Some(y);
            },
            Ok(()) => {},
        }
        k = k + 1;
    }
    proof {
        assert(ids.skip(k as int) =~= Seq::<RevisionId>::empty());
        assert(first_revisited(m) is Ok);
        assert(parents_finite(m)) by {
            assert forall|y: RevisionId| #[trigger] m.contains_key(y) implies m[y].parents.finite() by {
                let i = choose|i: int| 0 <= i < s@.len() && #[trigger] s@[i].id == y;
                lemma_entries_map_at(s@, i);
                s@[i].parents.lemma_seq_view();
                vstd::seq_lib::seq_to_set_is_finite(s@[i].parents.as_seq());
            }
        }
        lemma_dfs_list_ok(m, ids, Set::empty(), Set::empty(), depth);
        let d = first_revisited(m)->Ok_0;
        assert forall|y: RevisionId| !#[trigger] reaches(m, y, y) by {
            if reaches(m, y, y) {
                crate::graph::lemma_reaches_first_step(m, y, y);
                let i = choose|i: int| 0 <= i < s@.len() && #[trigger] s@[i].id == y;
                assert(ids[i] == y);
                assert(d.contains(ids[i]));
            }
        }
    }
    None
}

/// Every direct parent of a member is a member.
pub open spec fn parent_closed_set(m: Graph, d: Set<RevisionId>) -> bool {
    forall|y: RevisionId, p: RevisionId|
        #![trigger d.contains(y), m[y].parents.contains(p)]
        d.contains(y) && m.contains_key(y) && m[y].parents.contains(p) ==> d.contains(p)
}

/// Every statement has finitely many direct parents.
pub open spec fn parents_finite(m: Graph) -> bool {
    forall|y: RevisionId| #[trigger] m.contains_key(y) ==> m[y].parents.finite()
}

/// No member lies on a cycle.
pub open spec fn cycle_free_set(m: Graph, d: Set<RevisionId>) -> bool {
    forall|y: RevisionId| #[trigger] d.contains(y) ==> !reaches(m, y, y)
}

/// What a chain starting in a parent-closed set visits stays in it.
proof fn lemma_chain_stays(m: Graph, d: Set<RevisionId>, c: Seq<RevisionId>, i: int)
    requires
        parent_closed_set(m, d),
        crate::graph::is_chain(m, c),
        d.contains(c[0]),
        0 <= i < c.len(),
    ensures
        d.contains(c[i]),
    decreases i,
{
    if i > 0 {
        lemma_chain_stays(m, d, c, i - 1);
        crate::graph::lemma_chain_at(m, c, i - 1);
    }
}

/// A visit that completes leaves a larger parent-closed, cycle-free set of
/// completed statements, holding the visited one and none being visited.
proof fn lemma_dfs_visit_ok(m: Graph, x: RevisionId, path: Set<RevisionId>, done: Set<RevisionId>, depth: nat)
    requires
        parents_finite(m),
        parent_closed_set(m, done),
        cycle_free_set(m, done),
        done.disjoint(path),
        dfs_visit(m, x, path, done, depth) is Ok,
    ensures
        ({
            let d = dfs_visit(m, x, path, done, depth)->Ok_0;
            &&& done.subset_of(d)
            &&& parent_closed_set(m, d)
            &&& cycle_free_set(m, d)
            &&& d.disjoint(path)
            &&& d.contains(x)
        }),
    decreases depth, 0nat,
{
    if done.contains(x) {
    } else {
        let ps = parent_order(m, x);
        let p1 = path.insert(x);
        assert(done.disjoint(p1));
        lemma_dfs_list_ok(m, ps, p1, done, (depth - 1) as nat);
        let d1 = dfs_list(m, ps, p1, done, (depth - 1) as nat)->Ok_0;
        let d = d1.insert(x);
        if m.contains_key(x) {
            assert forall|p: RevisionId| m[x].parents.contains(p) implies d1.contains(p) by {
                let c = canonical_order(m[x].parents);
                assert(crate::idset::sorted_ids(c) && c.to_set() == m[x].parents) by {
                    lemma_canonical_exists(m[x].parents);
                }
                assert(c.to_set().contains(p));
            }
        }
        assert(!d1.contains(x));
        assert(!reaches(m, x, x)) by {
            if reaches(m, x, x) {
                let c = choose|c: Seq<RevisionId>| #![trigger crate::graph::is_chain(m, c)] crate::graph::is_chain(m, c) && c.len() >= 2 && c[0] == x && c.last() == x;
                crate::graph::lemma_chain_at(m, c, 0);
                let c1 = c.drop_first();
                assert(crate::graph::is_chain(m, c1)) by {
                    assert forall|i: int| 0 <= i < c1.len() - 1 implies #[trigger] m.contains_key(c1[i]) && m[c1[i]].parents.contains(c1[i + 1]) by {
                        crate::graph::lemma_chain_at(m, c, i + 1);
                    }
                }
                lemma_chain_stays(m, d1, c1, c1.len() - 1);
            }
        }
        assert(parent_closed_set(m, d));
        assert(cycle_free_set(m, d));
    }
}

/// Visits of a list that complete leave a larger parent-closed, cycle-free
/// set holding every visited statement and none being visited.
proof fn lemma_dfs_list_ok(m: Graph, xs: Seq<RevisionId>, path: Set<RevisionId>, done: Set<RevisionId>, depth: nat)
    requires
        parents_finite(m),
        parent_closed_set(m, done),
        cycle_free_set(m, done),
        done.disjoint(path),
        dfs_list(m, xs, path, done, depth) is Ok,
    ensures
        ({
            let d = dfs_list(m, xs, path, done, depth)->Ok_0;
            &&& done.subset_of(d)
            &&& parent_closed_set(m, d)
            &&& cycle_free_set(m, d)
            &&& d.disjoint(path)
            &&& forall|i: int| 0 <= i < xs.len() ==> d.contains(#[trigger] xs[i])
        }),
    decreases depth, xs.len() + 1,
{
    if xs.len() > 0 {
        lemma_dfs_visit_ok(m, xs[0], path, done, depth);
        let d0 = dfs_visit(m, xs[0], path, done, depth)->Ok_0;
        lemma_dfs_list_ok(m, xs.drop_first(), path, d0, depth);
        let d = dfs_list(m, xs, path, done, depth)->Ok_0;
        assert forall|i: int| 0 <= i < xs.len() implies d.contains(#[trigger] xs[i]) by {
            if i > 0 {
                assert(xs.drop_first()[i - 1] == xs[i]);
            }
        }
    }
}

/// Inserting a new identity into a canonically ordered sequence gives a
/// canonically ordered sequence of the members and the new one.
proof fn lemma_sorted_insert(q: Seq<RevisionId>, a: RevisionId)
    requires
        crate::idset::sorted_ids(q),
        !q.contains(a),
    ensures
        exists|r: Seq<RevisionId>| crate::idset::sorted_ids(r) && r.to_set() == q.to_set().insert(a),
    decreases q.len(),
{
    if q.len() == 0 {
        let r = seq![a];
        assert(r.to_set() =~= q.to_set().insert(a)) by {
            assert(r[0] == a);
        }
        assert(crate::idset::sorted_ids(r));
    } else {
        lemma_rid_total(a, q[0]);
        if rid_lt(a, q[0]) {
            let r = seq![a] + q;
            assert forall|i: int, j: int| 0 <= i < j < r.len() implies rid_lt(#[trigger] r[i], #[trigger] r[j]) by {
                if i == 0 {
                    assert(r[j] == q[j - 1]);
                    if j > 1 {
                        lemma_rid_transitive(a, q[0], q[j - 1]);
                    }
                } else {
                    assert(r[i] == q[i - 1] && r[j] == q[j - 1]);
                }
            }
            assert(r.to_set() =~= q.to_set().insert(a)) by {
                assert forall|x: RevisionId| r.to_set().contains(x) == q.to_set().insert(a).contains(x) by {
                    if r.to_set().contains(x) {
                        let i = choose|i: int| 0 <= i < r.len() && r[i] == x;
                        if i > 0 {
                            assert(q[i - 1] == x);
                        }
                    }
                    if q.to_set().contains(x) {
                        let i = choose|i: int| 0 <= i < q.len() && q[i] == x;
                        assert(r[i + 1] == x);
                    }
                    if x == a {
                        assert(r[0] == a);
                    }
                }
            }
        } else {
            let t = q.drop_first();
            assert(crate::idset::sorted_ids(t));
            assert(!t.contains(a)) by {
                if t.contains(a) {
                    let i = choose|i: int| 0 <= i < t.len() && t[i] == a;
                    assert(q[i + 1] == a);
                }
            }
            lemma_sorted_insert(t, a);
            let r1 = choose|r: Seq<RevisionId>| crate::idset::sorted_ids(r) && r.to_set() == t.to_set().insert(a);
            let r = seq![q[0]] + r1;
            assert forall|j: int| 0 <= j < r1.len() implies rid_lt(q[0], #[trigger] r1[j]) by {
                assert(r1.to_set().contains(r1[j]));
                if r1[j] != a {
                    let i = choose|i: int| 0 <= i < t.len() && t[i] == r1[j];
                    assert(q[i + 1] == r1[j]);
                }
            }
            assert forall|i: int, j: int| 0 <= i < j < r.len() implies rid_lt(#[trigger] r[i], #[trigger] r[j]) by {
                assert(r[j] == r1[j - 1]);
                if i > 0 {
                    assert(r[i] == r1[i - 1]);
                }
            }
            assert(r.to_set() =~= q.to_set().insert(a)) by {
                assert forall|x: RevisionId| r.to_set().contains(x) == q.to_set().insert(a).contains(x) by {
                    if r.to_set().contains(x) {
                        let i = choose|i: int| 0 <= i < r.len() && r[i] == x;
                        if i > 0 {
                            assert(r1[i - 1] == x);
                            assert(r1.to_set().contains(x));
                            if x != a {
                                let k = choose|k: int| 0 <= k < t.len() && t[k] == x;
                                assert(q[k + 1] == x);
                            }
                        } else {
                            assert(q[0] == x);
                        }
                    }
                    if q.to_set().contains(x) {
                        let i = choose|i: int| 0 <= i < q.len() && q[i] == x;
                        if i == 0 {
                            assert(r[0] == x);
                        } else {
                            assert(t[i - 1] == x);
                            assert(t.to_set().contains(x));
                            assert(r1.to_set().contains(x));
                            let k = choose|k: int| 0 <= k < r1.len() && r1[k] == x;
                            assert(r[k + 1] == x);
                        }
                    }
                    if x == a {
                        assert(r1.to_set().contains(a));
                        let k = choose|k: int| 0 <= k < r1.len() && r1[k] == a;
                        assert(r[k + 1] == a);
                    }
                }
            }
        }
    }
}

/// A finite set of identities has a canonical order.
proof fn lemma_canonical_exists(ids: Set<RevisionId>)
    requires
        ids.finite(),
    ensures
        crate::idset::sorted_ids(canonical_order(ids)),
        canonical_order(ids).to_set() == ids,
    decreases ids.len(),
{
    if ids.len() == 0 {
        let q = Seq::<RevisionId>::empty();
        assert(q.to_set() =~= ids) by {
            if exists|x: RevisionId| ids.contains(x) {
                let x = choose|x: RevisionId| ids.contains(x);
                vstd::set_lib::lemma_set_empty_equivalency_len(ids);
            }
        }
        assert(crate::idset::sorted_ids(q) && q.to_set() == ids);
    } else {
        let a = ids.choose();
        assert(ids.contains(a)) by {
            vstd::set_lib::lemma_set_empty_equivalency_len(ids);
        }
        let rest = ids.remove(a);
        lemma_canonical_exists(rest);
        let q = canonical_order(rest);
        assert(!q.contains(a)) by {
            if q.contains(a) {
                assert(q.to_set().contains(a));
            }
        }
        lemma_sorted_insert(q, a);
        let r = choose|r: Seq<RevisionId>| crate::idset::sorted_ids(r) && r.to_set() == q.to_set().insert(a);
        assert(rest.insert(a) =~= ids);
        assert(crate::idset::sorted_ids(r) && r.to_set() == ids);
    }
}

/// No `true` entry gives a count of zero.
proof fn lemma_count_zero(s: Seq<bool>)
    requires
        forall|i: int| 0 <= i < s.len() ==> !s[i],
    ensures
        count_true(s) == 0,
    decreases s.len(),
{
    if s.len() > 0 {
        lemma_count_zero(s.drop_last());
    }
}

/// What a failed graph check reports: the canonically first dangling parent
/// reference, or, in a parent-closed graph, the statement that the
/// depth-first search in canonical order first meets again while still
/// visiting it; that statement lies on a cycle.
pub open spec fn graph_error(m: Graph, e: CoreError) -> bool {
    match e {
        CoreError::MissingParent { revision_id, parent_id } => first_missing_pair(
            m,
            revision_id,
            parent_id,
        ),
        CoreError::CausalCycle { revision_id } => parents_closed(m) && m.contains_key(revision_id)
            && reaches(m, revision_id, revision_id) && first_revisited(m) == Err::<Set<RevisionId>, RevisionId>(
            revision_id,
        ),
        _ => false,
    }
}

/// Checks that a sequence of statements forms a valid causal graph.
fn check_graph(s: &Vec<ScalarRevision>) -> (r: Result<(), CoreError>)
    requires
        sorted_revs(s@),
    ensures
        r is Ok <==> parents_closed(entries_map(s@)) && acyclic(entries_map(s@)),
        r matches Err(e) ==> graph_error(entries_map(s@), e),
{
    match find_missing_parent(s) {
        Some((a, b)) => {
            return Err(CoreError::MissingParent { revision_id: a, parent_id: b });
        },
        None => {},
    }
    match dfs_search(s) {
        Some(x) => Err(CoreError::CausalCycle { revision_id: x }),
        None => Ok(()),
    }
}

/// A copy of every statement, in the same order.
pub(crate) fn copy_revisions(s: &Vec<ScalarRevision>) -> (v: Vec<ScalarRevision>)
    requires
        sorted_revs(s@),
    ensures
        sorted_revs(v@),
        entries_map(v@) == entries_map(s@),
        v@.len() == s@.len(),
        forall|j: int| 0 <= j < s@.len() ==> (#[trigger] v@[j]).id == s@[j].id,
{
    let mut v: Vec<ScalarRevision> = Vec::new();
    let mut i: usize = 0;
    while i < s.len()
        invariant
            i <= s.len(),
            v@.len() == i,
            forall|j: int| 0 <= j < i ==> (#[trigger] v@[j])@ == s@[j]@,
            forall|j: int| 0 <= j < i ==> v@[j].id == s@[j].id,
        decreases s.len() - i,
    {
        v.push(s[i].duplicate());
        i = i + 1;
    }
    proof {
        assert(sorted_revs(v@));
        assert(entries_map(v@) =~= entries_map(s@)) by {
            assert forall|k: RevisionId| has_id(v@, k) == has_id(s@, k) by {
                if has_id(v@, k) {
                    let j = choose|j: int| 0 <= j < v@.len() && #[trigger] v@[j].id == k;
                    assert(s@[j].id == k);
                }
                if has_id(s@, k) {
                    let j = choose|j: int| 0 <= j < s@.len() && #[trigger] s@[j].id == k;
                    assert(v@[j].id == k);
                }
            }
            assert forall|k: RevisionId| #[trigger] has_id(v@, k) implies entries_map(v@)[k]
                == entries_map(s@)[k] by {
                let j = choose|j: int| 0 <= j < v@.len() && #[trigger] v@[j].id == k;
                lemma_entries_map_at(v@, j);
                lemma_entries_map_at(s@, j);
            }
        }
    }
    v
}

/// Marks every position whose identity belongs to the closure of `seeds`.
fn mark_closure(s: &Vec<ScalarRevision>, seeds: &RevisionSet) -> (marks: Vec<bool>)
    requires
        sorted_revs(s@),
        parents_closed(entries_map(s@)),
        seeds@.subset_of(entries_map(s@).dom()),
    ensures
        marks@.len() == s@.len(),
        marked_ids(s@, marks@) == closure(entries_map(s@), seeds@),
{
    let ghost m = entries_map(s@);
    let n = s.len();
    let mut marks: Vec<bool> = Vec::new();
    let mut count: usize = 0;
    let mut i: usize = 0;
    while i < n
        invariant
            n == s@.len(),
            i <= n,
            marks@.len() == i,
            count == count_true(marks@),
            count <= i,
            forall|k: int| 0 <= k < i ==> #[trigger] marks@[k] == seeds@.contains(s@[k].id),
        decreases n - i,
    {
        let b = seeds.contains(&s[i].id);
        proof {
            assert(marks@.push(b).drop_last() =~= marks@);
        }
        marks.push(b);
        if b {
            count = count + 1;
        }
        i = i + 1;
    }
    proof {
        lemma_count_true_bound(marks@);
        assert(marked_ids(s@, marks@) =~= seeds@) by {
            assert forall|k: RevisionId| seeds@.contains(k) implies marked_ids(s@, marks@).contains(k) by {
                assert(m.contains_key(k));
                let j = choose|j: int| 0 <= j < s@.len() && #[trigger] s@[j].id == k;
                assert(marks@[j]);
            }
        }
    }
    let mut changed = true;
    while changed
        invariant
            n == s@.len(),
            m == entries_map(s@),
            sorted_revs(s@),
            parents_closed(m),
            marks@.len() == n,
            count == count_true(marks@),
            count <= n,
            seeds@.subset_of(marked_ids(s@, marks@)),
            marked_ids(s@, marks@).subset_of(closure(m, seeds@)),
            !changed ==> forall|i2: int, p: RevisionId|
                #![trigger marks@[i2], s@[i2].parents@.contains(p)]
                0 <= i2 < n && marks@[i2] && s@[i2].parents@.contains(p) ==> marked_ids(s@, marks@).contains(p),
        decreases 2 * (n - count) + if changed {
            1int
        } else {
            0int
        },
    {
        changed = false;
        let ghost c0 = count;
        let mut i: usize = 0;
        while i < n
            invariant
                n == s@.len(),
                m == entries_map(s@),
                sorted_revs(s@),
                parents_closed(m),
                marks@.len() == n,
                count == count_true(marks@),
                count <= n,
                count >= c0,
                changed ==> count > c0,
                i <= n,
                seeds@.subset_of(marked_ids(s@, marks@)),
                marked_ids(s@, marks@).subset_of(closure(m, seeds@)),
                !changed ==> forall|i2: int, p: RevisionId|
                    #![trigger marks@[i2], s@[i2].parents@.contains(p)]
                    0 <= i2 < i && marks@[i2] && s@[i2].parents@.contains(p) ==> marked_ids(s@, marks@).contains(p),
            decreases n - i,
        {
            if marks[i] {
                match unmarked_parent(s, i, &marks) {
                    None => {},
                    Some(j) => {
                        proof {
                            lemma_marked_ids_at(s@, marks@, i as int);
                            lemma_entries_map_at(s@, i as int);
                            lemma_closure_step(m, seeds@, s@[i as int].id, s@[j as int].id);
                            lemma_count_true_set(marks@, j as int);
                            lemma_count_true_bound(marks@.update(j as int, true));
                        }
                        let ghost old_marks = marks@;
                        marks.set(j, true);
                        proof {
                            assert forall|k: RevisionId| marked_ids(s@, old_marks).contains(k) implies marked_ids(s@, marks@).contains(k) by {
                                let iy = choose|iy: int| 0 <= iy < s@.len() && old_marks[iy] && #[trigger] s@[iy].id == k;
                                assert(marks@[iy]);
                            }
                            assert forall|k: RevisionId| marked_ids(s@, marks@).contains(k) implies closure(m, seeds@).contains(k) by {
                                let iy = choose|iy: int| 0 <= iy < s@.len() && marks@[iy] && #[trigger] s@[iy].id == k;
                                if iy != j {
                                    assert(old_marks[iy]);
                                    assert(marked_ids(s@, old_marks).contains(k));
                                }
                            }
                        }
                        count = count + 1;
                        changed = true;
                    },
                }
            }
            i = i + 1;
        }
    }
    proof {
        let mset = marked_ids(s@, marks@);
        assert forall|x: RevisionId, p: RevisionId|
            #[trigger] mset.contains(x) && m.contains_key(x) && #[trigger] m[x].parents.contains(p)
            implies mset.contains(p) by {
            let iy = choose|iy: int| 0 <= iy < s@.len() && marks@[iy] && #[trigger] s@[iy].id == x;
            lemma_entries_map_at(s@, iy);
            assert(marks@[iy] && s@[iy].parents@.contains(p));
        }
        lemma_closure_minimal(m, seeds@, mset);
        assert(mset =~= closure(m, seeds@));
    }
    marks
}

/// The identities at marked positions, as a set.
fn collect_marked(s: &Vec<ScalarRevision>, marks: &Vec<bool>) -> (r: RevisionSet)
    requires
        marks@.len() == s@.len(),
    ensures
        r@ == marked_ids(s@, marks@),
{
    let mut r = RevisionSet::new();
    let mut i: usize = 0;
    while i < s.len()
        invariant
            i <= s@.len(),
            marks@.len() == s@.len(),
            forall|k: RevisionId| r@.contains(k) <==> exists|j: int| 0 <= j < i && marks@[j] && #[trigger] s@[j].id == k,
        decreases s.len() - i,
    {
        if marks[i] {
            r.insert(s[i].id);
        }
        proof {
            assert forall|k: RevisionId| r@.contains(k) <==> exists|j: int| 0 <= j < i + 1 && marks@[j] && #[trigger] s@[j].id == k by {
                if r@.contains(k) && !(exists|j: int| 0 <= j < i && marks@[j] && #[trigger] s@[j].id == k) {
                    assert(marks@[i as int] && s@[i as int].id == k);
                }
            }
        }
        i = i + 1;
    }
    assert(r@ =~= marked_ids(s@, marks@));
    r
}

/// The closure of a parent-closed graph lies inside it.
proof fn lemma_closure_in_dom(m: Graph, seeds: Set<RevisionId>)
    requires
        parents_closed(m),
        seeds.subset_of(m.dom()),
    ensures
        closure(m, seeds).subset_of(m.dom()),
{
    lemma_closure_minimal(m, seeds, m.dom());
}


/// Position `j` of `rs` repeats an earlier identity with a different statement.
pub open spec fn conflict_at(rs: Seq<ScalarRevision>, j: int) -> bool {
    0 <= j < rs.len() && exists|i: int| 0 <= i < j && rs[i].id == rs[j].id && #[trigger] rs[i]@ != rs[j]@
}

/// No identity is used for two different statements.
pub open spec fn conflict_free(rs: Seq<ScalarRevision>) -> bool {
    forall|i: int, j: int| 0 <= i < j < rs.len() && #[trigger] rs[i].id == #[trigger] rs[j].id ==> rs[i]@ == rs[j]@
}

/// Statements as abstract models.
pub open spec fn revision_models(rs: Seq<ScalarRevision>) -> Seq<RevisionModel> {
    rs.map_values(|r: ScalarRevision| r@)
}

/// Position `j` of `ms` repeats an earlier identity with a different statement.
pub open spec fn model_conflict_at(ms: Seq<RevisionModel>, j: int) -> bool {
    0 <= j < ms.len() && exists|i: int| 0 <= i < j && ms[i].id == ms[j].id && #[trigger] ms[i] != ms[j]
}

/// No identity is used for two different statements.
pub open spec fn model_conflict_free(ms: Seq<RevisionModel>) -> bool {
    forall|i: int, j: int| 0 <= i < j < ms.len() && #[trigger] ms[i].id == #[trigger] ms[j].id ==> ms[i] == ms[j]
}

/// The graph of statements listed in any order, possibly repeated.
pub open spec fn models_graph(ms: Seq<RevisionModel>) -> Graph {
    Map::new(
        |k: RevisionId| exists|i: int| 0 <= i < ms.len() && #[trigger] ms[i].id == k,
        |k: RevisionId| ms[choose|i: int| 0 <= i < ms.len() && #[trigger] ms[i].id == k],
    )
}

/// A register result as a graph.
pub open spec fn register_view(r: Result<ScalarRegister, CoreError>) -> Result<Graph, CoreError> {
    match r {
        Ok(x) => Ok(x@),
        Err(e) => Err(e),
    }
}

/// What building a register from statements `ms`, given in any order, gives:
/// the first reuse of an identity for a different statement is refused; then
/// the graph must have every parent present and no cycle.
pub open spec fn register_outcome(ms: Seq<RevisionModel>, r: Result<Graph, CoreError>) -> bool {
    &&& (exists|j: int| model_conflict_at(ms, j)) <==> (r matches Err(CoreError::DuplicateRevisionConflict { .. }))
    &&& (r matches Err(CoreError::DuplicateRevisionConflict { revision_id }) ==> exists|j: int|
        model_conflict_at(ms, j) && ms[j].id == revision_id && forall|j2: int|
            0 <= j2 < j ==> !#[trigger] model_conflict_at(ms, j2))
    &&& model_conflict_free(ms) ==> (r is Ok <==> parents_closed(models_graph(ms)) && acyclic(models_graph(ms)))
    &&& (r matches Ok(m) ==> m == models_graph(ms))
    &&& model_conflict_free(ms) ==> (r matches Err(e) ==> graph_error(models_graph(ms), e))
}

/// The statement-level and model-level views of a list agree.
pub proof fn lemma_revision_models(rs: Seq<ScalarRevision>)
    ensures
        forall|j: int| #[trigger] conflict_at(rs, j) == model_conflict_at(revision_models(rs), j),
        conflict_free(rs) == model_conflict_free(revision_models(rs)),
        conflict_free(rs) ==> entries_map(rs) == models_graph(revision_models(rs)),
{
    let ms = revision_models(rs);
    assert forall|j: int| #[trigger] conflict_at(rs, j) == model_conflict_at(ms, j) by {
        if conflict_at(rs, j) {
            let i = choose|i: int| 0 <= i < j && rs[i].id == rs[j].id && #[trigger] rs[i]@ != rs[j]@;
            assert(ms[i] != ms[j]);
        }
        if model_conflict_at(ms, j) {
            let i = choose|i: int| 0 <= i < j && ms[i].id == ms[j].id && #[trigger] ms[i] != ms[j];
            assert(rs[i]@ != rs[j]@);
        }
    }
    assert(conflict_free(rs) == model_conflict_free(ms)) by {
        if conflict_free(rs) {
            assert forall|i: int, j: int| 0 <= i < j < ms.len() && #[trigger] ms[i].id == #[trigger] ms[j].id implies ms[i] == ms[j] by {
                assert(rs[i].id == rs[j].id);
            }
        }
        if model_conflict_free(ms) {
            assert forall|i: int, j: int| 0 <= i < j < rs.len() && #[trigger] rs[i].id == #[trigger] rs[j].id implies rs[i]@ == rs[j]@ by {
                assert(ms[i].id == ms[j].id);
            }
        }
    }
    if conflict_free(rs) {
        let m1 = entries_map(rs);
        let m2 = models_graph(ms);
        assert forall|k: RevisionId| m1.contains_key(k) == m2.contains_key(k) by {
            if has_id(rs, k) {
                let i = choose|i: int| 0 <= i < rs.len() && #[trigger] rs[i].id == k;
                assert(ms[i].id == k);
            }
            if m2.contains_key(k) {
                let i = choose|i: int| 0 <= i < ms.len() && #[trigger] ms[i].id == k;
                assert(rs[i].id == k);
            }
        }
        assert forall|k: RevisionId| m1.contains_key(k) implies m1[k] == m2[k] by {
            let i1 = choose|i: int| 0 <= i < rs.len() && #[trigger] rs[i].id == k;
            assert(ms[i1].id == k);
            let i2 = choose|i: int| 0 <= i < ms.len() && #[trigger] ms[i].id == k;
            if i1 < i2 {
                assert(rs[i1].id == rs[i2].id);
            } else if i2 < i1 {
                assert(rs[i2].id == rs[i1].id);
            }
        }
        assert(m1 =~= m2);
    }
}

proof fn conflict_witness(rs: Seq<ScalarRevision>, j: int) -> (i: int)
    requires
        conflict_at(rs, j),
    ensures
        0 <= i < j,
        rs[i].id == rs[j].id,
        rs[i]@ != rs[j]@,
{
    choose|i: int| 0 <= i < j && rs[i].id == rs[j].id && #[trigger] rs[i]@ != rs[j]@
}

proof fn lemma_conflict_free_prefix(rs: Seq<ScalarRevision>, j: int)
    requires
        0 <= j <= rs.len(),
        forall|j2: int| 0 <= j2 < j ==> !conflict_at(rs, j2),
    ensures
        conflict_free(rs.take(j)),
{
    let t = rs.take(j);
    assert forall|a: int, b: int| 0 <= a < b < t.len() && #[trigger] t[a].id == #[trigger] t[b].id implies t[a]@ == t[b]@ by {
        assert(!conflict_at(rs, b));
        assert(rs[a]@ == rs[b]@);
    }
}

proof fn lemma_conflict_free_map_at(rs: Seq<ScalarRevision>, i: int)
    requires
        conflict_free(rs),
        0 <= i < rs.len(),
    ensures
        entries_map(rs).contains_key(rs[i].id),
        entries_map(rs)[rs[i].id] == rs[i]@,
{
    assert(has_id(rs, rs[i].id));
    let j = choose|j: int| 0 <= j < rs.len() && #[trigger] rs[j].id == rs[i].id;
    if j < i {
    } else if j > i {
    }
}

/// Graph of a conflict-free prefix extended by one statement.
proof fn lemma_prefix_push(rs: Seq<ScalarRevision>, j: int)
    requires
        0 <= j < rs.len(),
        conflict_free(rs.take(j)),
        !conflict_at(rs, j),
    ensures
        conflict_free(rs.take(j + 1)),
        has_id(rs.take(j), rs[j].id) ==> entries_map(rs.take(j + 1)) == entries_map(rs.take(j)),
        !has_id(rs.take(j), rs[j].id) ==> entries_map(rs.take(j + 1)) == entries_map(rs.take(j)).insert(rs[j].id, rs[j]@),
{
    let t = rs.take(j);
    let t1 = rs.take(j + 1);
    assert forall|a: int, b: int| 0 <= a < b < t1.len() && #[trigger] t1[a].id == #[trigger] t1[b].id implies t1[a]@ == t1[b]@ by {
        if b == j {
            assert(rs[a]@ == rs[b]@);
        } else {
            assert(t[a].id == t[b].id);
        }
    }
    assert forall|k: RevisionId| has_id(t1, k) == (has_id(t, k) || k == rs[j].id) by {
        if has_id(t1, k) {
            let i = choose|i: int| 0 <= i < t1.len() && #[trigger] t1[i].id == k;
            if i < j {
                assert(t[i].id == k);
            }
        }
        if has_id(t, k) {
            let i = choose|i: int| 0 <= i < t.len() && #[trigger] t[i].id == k;
            assert(t1[i].id == k);
        }
        if k == rs[j].id {
            assert(t1[j].id == k);
        }
    }
    assert forall|k: RevisionId| #[trigger] has_id(t1, k) implies entries_map(t1)[k] == (if has_id(t, k) { entries_map(t)[k] } else { rs[j]@ }) by {
        let i = choose|i: int| 0 <= i < t1.len() && #[trigger] t1[i].id == k;
        lemma_conflict_free_map_at(t1, i);
        if has_id(t, k) {
            let i2 = choose|i2: int| 0 <= i2 < t.len() && #[trigger] t[i2].id == k;
            lemma_conflict_free_map_at(t, i2);
            lemma_conflict_free_map_at(t1, i2);
        } else {
            lemma_conflict_free_map_at(t1, j);
        }
    }
    if has_id(t, rs[j].id) {
        assert(entries_map(t1) =~= entries_map(t));
    } else {
        assert(entries_map(t1) =~= entries_map(t).insert(rs[j].id, rs[j]@));
    }
}

/// State-based scalar register using explicit direct causal parents.
#[derive(Debug, PartialEq, Eq)]
pub struct ScalarRegister {
    revisions: Vec<ScalarRevision>,
}

impl View for ScalarRegister {
    type V = Graph;

    closed spec fn view(&self) -> Graph {
        entries_map(self.revisions@)
    }
}

impl ScalarRegister {
    #[verifier::type_invariant]
    spec fn inv(self) -> bool {
        &&& sorted_revs(self.revisions@)
        &&& valid_graph(entries_map(self.revisions@))
    }

    /// The stored statements in canonical identity order.
    pub closed spec fn entries(self) -> Seq<ScalarRevision> {
        self.revisions@
    }

    pub fn new() -> (r: Self)
        ensures
            r@ == Map::<RevisionId, RevisionModel>::empty(),
    {
        let v: Vec<ScalarRevision> = Vec::new();
        proof {
            assert(entries_map(v@) =~= Map::<RevisionId, RevisionModel>::empty());
            lemma_empty_valid();
        }
        ScalarRegister { revisions: v }
    }

    pub fn len(&self) -> (n: usize)
        ensures
            n == self@.dom().len(),
    {
        proof {
            use_type_invariant(self);
            lemma_entries_map_basic(self.revisions@);
        }
        self.revisions.len()
    }

    pub fn is_empty(&self) -> (b: bool)
        ensures
            b == (self@ == Map::<RevisionId, RevisionModel>::empty()),
    {
        proof {
            use_type_invariant(self);
            lemma_entries_map_basic(self.revisions@);
            if self.revisions@.len() > 0 {
                lemma_entries_map_at(self.revisions@, 0);
            } else {
                assert(self@ =~= Map::<RevisionId, RevisionModel>::empty());
            }
        }
        self.revisions.len() == 0
    }

    /// A copy of the same register.
    pub fn duplicate(&self) -> (r: Self)
        ensures
            r@ == self@,
    {
        proof {
            use_type_invariant(self);
        }
        ScalarRegister { revisions: copy_revisions(&self.revisions) }
    }

    /// The stored statements in canonical identity order.
    ///
    /// Every stored statement comes exactly once, in strictly increasing
    /// identity order, and is the statement the register holds under its own
    /// identity.
    pub fn revisions(&self) -> (r: &Vec<ScalarRevision>)
        ensures
            sorted_revs(r@),
            entries_map(r@) == self@,
            r@ == self.entries(),
            valid_graph(self@),
            r@.len() == self@.dom().len(),
            forall|i: int| 0 <= i < r@.len() ==> self@.contains_key((#[trigger] r@[i]).id) && self@[r@[i].id] == r@[i]@,
            forall|i: int, j: int| 0 <= i < j < r@.len() ==> (#[trigger] r@[i]).id != (#[trigger] r@[j]).id,
            forall|k: RevisionId| #[trigger] self@.contains_key(k) ==> exists|i: int| 0 <= i < r@.len() && r@[i].id == k,
    {
        proof {
            use_type_invariant(self);
            lemma_entries_map_basic(self.revisions@);
            assert forall|i: int| 0 <= i < self.revisions@.len() implies self@.contains_key(
                (#[trigger] self.revisions@[i]).id,
            ) && self@[self.revisions@[i].id] == self.revisions@[i]@ by {
                lemma_entries_map_at(self.revisions@, i);
            }
            assert forall|i: int, j: int| 0 <= i < j < self.revisions@.len() implies (#[trigger] self.revisions@[i]).id
                != (#[trigger] self.revisions@[j]).id by {
                lemma_sorted_distinct(self.revisions@, i, j);
            }
        }
        &self.revisions
    }

    /// The statement with identity `id`, if present.
    pub fn revision(&self, id: RevisionId) -> (r: Option<&ScalarRevision>)
        ensures
            r is Some == self@.contains_key(id),
            r matches Some(x) ==> x@ == self@[id] && x.id == id,
    {
        proof {
            use_type_invariant(self);
        }
        match find_revision(&self.revisions, &id) {
            Some(i) => {
                proof {
                    lemma_entries_map_at(self.revisions@, i as int);
                }
                Some(&self.revisions[i])
            },
            None => None,
        }
    }

    /// Checks the causal graph: every parent present and no cycle. Every
    /// register satisfies this, so the check always succeeds.
    pub fn validate(&self) -> (r: Result<(), CoreError>)
        ensures
            r is Ok,
            valid_graph(self@),
    {
        proof {
            use_type_invariant(self);
        }
        check_graph(&self.revisions)
    }

    /// Inserts one complete statement into the register.
    ///
    /// An identical statement already present is accepted without change; a
    /// different statement under a present identity is refused, and so is a
    /// statement with a missing direct parent (the canonically smallest one is
    /// reported).
    pub fn insert_revision(&mut self, revision: ScalarRevision) -> (r: Result<(), CoreError>)
        ensures
            old(self)@.contains_key(revision.id) && old(self)@[revision.id] == revision@ ==> r is Ok
                && final(self)@ == old(self)@,
            old(self)@.contains_key(revision.id) && old(self)@[revision.id] != revision@ ==> r
                == Err::<(), CoreError>(CoreError::DuplicateRevisionConflict { revision_id: revision.id })
                && final(self)@ == old(self)@,
            !old(self)@.contains_key(revision.id) && revision@.parents.subset_of(old(self)@.dom())
                ==> r is Ok && final(self)@ == old(self)@.insert(revision.id, revision@),
            !old(self)@.contains_key(revision.id) && !revision@.parents.subset_of(old(self)@.dom())
                ==> final(self)@ == old(self)@ && (r matches Err(
                CoreError::MissingParent { revision_id, parent_id },
            ) && revision_id == revision.id && first_missing_parent(
                revision@.parents,
                old(self)@.dom(),
                parent_id,
            )),
    {
        proof {
            use_type_invariant(&*self);
        }
        match find_revision(&self.revisions, &revision.id) {
            Some(i) => {
                proof {
                    lemma_entries_map_at(self.revisions@, i as int);
                }
                if self.revisions[i].same_statement(&revision) {
                    return Ok(());
                } else {
                    return Err(CoreError::DuplicateRevisionConflict { revision_id: revision.id });
                }
            },
            None => {},
        }
        let ps = revision.parents.to_vec();
        let mut k: usize = 0;
        while k < ps.len()
            invariant
                k <= ps.len(),
                ps@.to_set() == revision@.parents,
                crate::idset::sorted_ids(ps@),
                !has_id(self.revisions@, revision.id),
                self@ == old(self)@,
                forall|k2: int| 0 <= k2 < k ==> has_id(self.revisions@, #[trigger] ps@[k2]),
            decreases ps.len() - k,
        {
            if find_revision(&self.revisions, &ps[k]).is_none() {
                proof {
                    let p = ps@[k as int];
                    assert(ps@.to_set().contains(p));
                    assert forall|q: RevisionId| #[trigger] revision@.parents.contains(q) && rid_lt(q, p)
                        implies self@.dom().contains(q) by {
                        let k2 = choose|k2: int| 0 <= k2 < ps@.len() && ps@[k2] == q;
                        if k2 > k {
                            assert(rid_lt(ps@[k as int], ps@[k2]));
                            lemma_rid_total(p, q);
                        } else if k2 == k {
                            lemma_rid_total(p, p);
                        }
                    }
                }
                return Err(CoreError::MissingParent { revision_id: revision.id, parent_id: ps[k] });
            }
            k = k + 1;
        }
        proof {
            assert forall|p: RevisionId| #[trigger] revision@.parents.contains(p) implies self@.contains_key(p) by {
                let k2 = choose|k2: int| 0 <= k2 < ps@.len() && ps@[k2] == p;
            }
            lemma_insert_valid(self@, revision.id, revision@);
            lemma_empty_valid();
            assert(entries_map(Seq::<ScalarRevision>::empty()) =~= Map::<RevisionId, RevisionModel>::empty());
        }
        let ghost id = revision.id;
        let ghost model = revision@;
        let mut v: Vec<ScalarRevision> = Vec::new();
        std::mem::swap(&mut v, &mut self.revisions);
        insert_sorted(&mut v, revision);
        self.revisions = v;
        assert(self@ == old(self)@.insert(id, model));
        Ok(())
    }

    /// Creates a local successor whose parents are exactly the currently
    /// observed frontier.
    pub fn assign(&mut self, id: RevisionId, value: Vec<u8>) -> (r: Result<(), CoreError>)
        ensures
            ({
                let statement = RevisionModel { id, value: value@, parents: frontier(old(self)@) };
                &&& !old(self)@.contains_key(id) ==> r is Ok && final(self)@ == old(self)@.insert(
                    id,
                    statement,
                ) && frontier(final(self)@) == Set::<RevisionId>::empty().insert(id)
                &&& old(self)@.contains_key(id) ==> final(self)@ == old(self)@ && (r is Ok <==> old(
                    self,
                )@[id] == statement) && (r is Err ==> r == Err::<(), CoreError>(
                    CoreError::DuplicateRevisionConflict { revision_id: id },
                ))
            }),
    {
        let parents = self.frontier_ids();
        proof {
            use_type_invariant(&*self);
            assert(parents@.subset_of(self@.dom()));
            if !self@.contains_key(id) {
                crate::graph::lemma_successor_frontier(
                    self@,
                    id,
                    RevisionModel { id, value: value@, parents: parents@ },
                );
            }
        }
        self.insert_revision(ScalarRevision::new(id, value, parents))
    }

    /// The set of causally maximal revision identities.
    pub fn frontier_ids(&self) -> (r: RevisionSet)
        ensures
            r@ == frontier(self@),
    {
        proof {
            use_type_invariant(self);
        }
        let s = &self.revisions;
        let ghost m = self@;
        let mut result = RevisionSet::new();
        let mut i: usize = 0;
        while i < s.len()
            invariant
                i <= s@.len(),
                sorted_revs(s@),
                m == entries_map(s@),
                forall|k: RevisionId| result@.contains(k) <==> (frontier(m).contains(k) && exists|j: int|
                    0 <= j < i && #[trigger] s@[j].id == k),
            decreases s.len() - i,
        {
            let id = s[i].id;
            let mut dominated = false;
            let mut j: usize = 0;
            while j < s.len()
                invariant
                    j <= s@.len(),
                    i < s@.len(),
                    id == s@[i as int].id,
                    dominated == exists|j2: int| 0 <= j2 < j && (#[trigger] s@[j2]).parents@.contains(id),
                decreases s.len() - j,
            {
                if s[j].parents.contains(&id) {
                    dominated = true;
                }
                j = j + 1;
            }
            proof {
                lemma_entries_map_at(s@, i as int);
                if dominated {
                    let j2 = choose|j2: int| 0 <= j2 < s@.len() && (#[trigger] s@[j2]).parents@.contains(id);
                    lemma_entries_map_at(s@, j2);
                    assert(!frontier(m).contains(id));
                } else {
                    assert forall|x: RevisionId| #[trigger] m.contains_key(x) implies !m[x].parents.contains(id) by {
                        let j2 = choose|j2: int| 0 <= j2 < s@.len() && #[trigger] s@[j2].id == x;
                        lemma_entries_map_at(s@, j2);
                    }
                    assert(frontier(m).contains(id));
                }
            }
            if !dominated {
                result.insert(id);
            }
            proof {
                assert forall|k: RevisionId| result@.contains(k) <==> (frontier(m).contains(k) && exists|j: int|
                    0 <= j < i + 1 && #[trigger] s@[j].id == k) by {
                    if frontier(m).contains(k) && exists|j: int| 0 <= j < i + 1 && #[trigger] s@[j].id == k {
                        let j = choose|j: int| 0 <= j < i + 1 && #[trigger] s@[j].id == k;
                        if j == i {
                        }
                    }
                }
            }
            i = i + 1;
        }
        proof {
            assert forall|k: RevisionId| result@.contains(k) <==> frontier(m).contains(k) by {
                if frontier(m).contains(k) {
                    let j = choose|j: int| 0 <= j < s@.len() && #[trigger] s@[j].id == k;
                }
            }
            assert(result@ =~= frontier(m));
        }
        result
    }

    /// The visible revision: the canonically greatest member of the frontier.
    pub fn materialized_revision(&self) -> (r: Option<&ScalarRevision>)
        ensures
            r is None <==> frontier(self@) == Set::<RevisionId>::empty(),
            r matches Some(x) ==> frontier(self@).contains(x.id) && x@ == self@[x.id] && forall|y: RevisionId| #[trigger]
                frontier(self@).contains(y) ==> y == x.id || rid_lt(y, x.id),
    {
        let f = self.frontier_ids();
        match f.last() {
            None => None,
            Some(winner) => self.revision(winner),
        }
    }

    /// The visible value.
    pub fn materialized(&self) -> (r: Option<&Vec<u8>>)
        ensures
            r is None <==> frontier(self@) == Set::<RevisionId>::empty(),
            r matches Some(v) ==> exists|x: RevisionId| #[trigger] frontier(self@).contains(x) && v@ == self@[x].value && forall|y: RevisionId| #[trigger]
                frontier(self@).contains(y) ==> y == x || rid_lt(y, x),
    {
        match self.materialized_revision() {
            None => None,
            Some(revision) => Some(&revision.value),
        }
    }

    /// Strict causal ancestry: a revision is not its own ancestor.
    pub fn is_ancestor(&self, ancestor: RevisionId, descendant: RevisionId) -> (r: bool)
        ensures
            r == reaches(self@, descendant, ancestor),
    {
        proof {
            use_type_invariant(self);
        }
        let s = &self.revisions;
        let i = match find_revision(s, &descendant) {
            Some(i) => i,
            None => {
                proof {
                    if reaches(self@, descendant, ancestor) {
                        crate::graph::lemma_reaches_first_step(self@, descendant, ancestor);
                    }
                }
                return false;
            },
        };
        proof {
            lemma_entries_map_at(s@, i as int);
            assert forall|p: RevisionId| #[trigger] s@[i as int].parents@.contains(p) implies self@.dom().contains(p) by {
                assert(self@[descendant].parents.contains(p));
            }
            assert(s@[i as int].parents@.subset_of(self@.dom()));
        }
        let marks = mark_closure(s, &s[i].parents);
        proof {
            lemma_ancestors_closure(self@, descendant, ancestor);
            lemma_closure_in_dom(self@, s@[i as int].parents@);
        }
        match find_revision(s, &ancestor) {
            Some(j) => {
                proof {
                    lemma_marked_ids_at(s@, marks@, j as int);
                }
                marks[j]
            },
            None => false,
        }
    }

    /// The given identities together with all their strict ancestors. Refused
    /// when an identity is unknown; the canonically greatest unknown one is
    /// reported.
    pub fn dependency_closure(&self, seeds: &RevisionSet) -> (r: Result<RevisionSet, CoreError>)
        ensures
            r is Ok <==> seeds@.subset_of(self@.dom()),
            r matches Ok(c) ==> c@ == closure(self@, seeds@),
            r matches Err(e) ==> exists|x: RevisionId| e == (CoreError::UnknownRevision { revision_id: x })
                && seeds@.contains(x) && !self@.contains_key(x) && forall|y: RevisionId| #[trigger]
                seeds@.contains(y) && !self@.contains_key(y) ==> y == x || rid_lt(y, x),
    {
        proof {
            use_type_invariant(self);
        }
        let v = seeds.to_vec();
        let mut k: usize = v.len();
        while k > 0
            invariant
                k <= v@.len(),
                v@.to_set() == seeds@,
                crate::idset::sorted_ids(v@),
                forall|k2: int| k <= k2 < v@.len() ==> self@.contains_key(#[trigger] v@[k2]),
            decreases k,
        {
            if self.revision(v[k - 1]).is_none() {
                proof {
                    let x = v@[k - 1];
                    assert(v@.to_set().contains(x));
                    assert forall|y: RevisionId| #[trigger] seeds@.contains(y) && !self@.contains_key(y) implies y == x || rid_lt(y, x) by {
                        let k2 = choose|k2: int| 0 <= k2 < v@.len() && v@[k2] == y;
                        if k2 < k - 1 {
                            assert(rid_lt(v@[k2], v@[k - 1]));
                        }
                    }
                }
                return Err(CoreError::UnknownRevision { revision_id: v[k - 1] });
            }
            k = k - 1;
        }
        proof {
            assert forall|y: RevisionId| seeds@.contains(y) implies self@.dom().contains(y) by {
                let k2 = choose|k2: int| 0 <= k2 < v@.len() && v@[k2] == y;
            }
        }
        let marks = mark_closure(&self.revisions, seeds);
        Ok(collect_marked(&self.revisions, &marks))
    }

    /// Builds a register from statements given in any order.
    ///
    /// Repeated delivery of an identical statement is harmless; the first
    /// statement reusing an identity with different content is refused. The
    /// resulting graph is then checked: dangling parents and causal cycles are
    /// refused.
    pub fn from_revisions(revisions: Vec<ScalarRevision>) -> (r: Result<Self, CoreError>)
        ensures
            (exists|j: int| conflict_at(revisions@, j)) <==> r matches Err(
                CoreError::DuplicateRevisionConflict { .. },
            ),
            r matches Err(CoreError::DuplicateRevisionConflict { revision_id }) ==> exists|j: int|
                conflict_at(revisions@, j) && revisions@[j].id == revision_id && forall|j2: int|
                    0 <= j2 < j ==> !#[trigger] conflict_at(revisions@, j2),
            conflict_free(revisions@) ==> (r is Ok <==> parents_closed(entries_map(revisions@))
                && acyclic(entries_map(revisions@))),
            r matches Ok(reg) ==> reg@ == entries_map(revisions@),
            conflict_free(revisions@) ==> (r matches Err(e) ==> graph_error(entries_map(revisions@), e)),
            register_outcome(revision_models(revisions@), register_view(r)),
    {
        let ghost rs = revisions@;
        let ghost ms = revision_models(rs);
        let r = Self::build_from(revisions);
        proof {
            lemma_revision_models(rs);
            if exists|j: int| model_conflict_at(ms, j) {
                let j = choose|j: int| model_conflict_at(ms, j);
                assert(conflict_at(rs, j));
            }
            if exists|j: int| conflict_at(rs, j) {
                let j = choose|j: int| conflict_at(rs, j);
                assert(model_conflict_at(ms, j));
            } else {
                lemma_conflict_free_prefix(rs, rs.len() as int);
                assert(rs.take(rs.len() as int) =~= rs);
            }
            if let Err(CoreError::DuplicateRevisionConflict { revision_id }) = r {
                let j = choose|j: int| conflict_at(rs, j) && rs[j].id == revision_id && forall|j2: int|
                    0 <= j2 < j ==> !#[trigger] conflict_at(rs, j2);
                assert(model_conflict_at(ms, j));
                assert forall|j2: int| 0 <= j2 < j implies !#[trigger] model_conflict_at(ms, j2) by {
                    assert(!conflict_at(rs, j2));
                }
            }
        }
        r
    }

    fn build_from(revisions: Vec<ScalarRevision>) -> (r: Result<Self, CoreError>)
        ensures
            (exists|j: int| conflict_at(revisions@, j)) <==> r matches Err(
                CoreError::DuplicateRevisionConflict { .. },
            ),
            r matches Err(CoreError::DuplicateRevisionConflict { revision_id }) ==> exists|j: int|
                conflict_at(revisions@, j) && revisions@[j].id == revision_id && forall|j2: int|
                    0 <= j2 < j ==> !#[trigger] conflict_at(revisions@, j2),
            conflict_free(revisions@) ==> (r is Ok <==> parents_closed(entries_map(revisions@))
                && acyclic(entries_map(revisions@))),
            r matches Ok(reg) ==> reg@ == entries_map(revisions@),
            conflict_free(revisions@) ==> (r matches Err(e) ==> graph_error(entries_map(revisions@), e)),
    {
        let ghost rs = revisions@;
        let mut acc: Vec<ScalarRevision> = Vec::new();
        let mut j: usize = 0;
        proof {
            assert(rs.take(0) =~= Seq::<ScalarRevision>::empty());
            assert(entries_map(acc@) =~= entries_map(rs.take(0)));
        }
        while j < revisions.len()
            invariant
                j <= rs.len(),
                rs == revisions@,
                sorted_revs(acc@),
                entries_map(acc@) == entries_map(rs.take(j as int)),
                forall|j2: int| 0 <= j2 < j ==> !#[trigger] conflict_at(rs, j2),
            decreases rs.len() - j,
        {
            proof {
                lemma_conflict_free_prefix(rs, j as int);
            }
            match find_revision(&acc, &revisions[j].id) {
                Some(i) => {
                    proof {
                        lemma_entries_map_at(acc@, i as int);
                        let t = rs.take(j as int);
                        assert(entries_map(t).contains_key(rs[j as int].id));
                        let i2 = choose|i2: int| 0 <= i2 < t.len() && #[trigger] t[i2].id == rs[j as int].id;
                        lemma_conflict_free_map_at(t, i2);
                    }
                    if !acc[i].same_statement(&revisions[j]) {
                        proof {
                            let t = rs.take(j as int);
                            let i2 = choose|i2: int| 0 <= i2 < t.len() && #[trigger] t[i2].id == rs[j as int].id;
                            assert(rs[i2]@ != rs[j as int]@);
                            assert(conflict_at(rs, j as int));
                        }
                        return Err(CoreError::DuplicateRevisionConflict { revision_id: revisions[j].id });
                    }
                    proof {
                        assert(acc@[i as int]@ == rs[j as int]@);
                        assert(entries_map(acc@)[rs[j as int].id] == rs[j as int]@);
                        assert(!conflict_at(rs, j as int)) by {
                            if conflict_at(rs, j as int) {
                                let t = rs.take(j as int);
                                let i3 = conflict_witness(rs, j as int);
                                assert(t[i3] == rs[i3]);
                                assert(conflict_free(t));
                                lemma_conflict_free_map_at(t, i3);
                                assert(entries_map(t)[rs[i3].id] == rs[i3]@);
                                assert(entries_map(acc@) == entries_map(t));
                                assert(rs[i3]@ == rs[j as int]@);
                            }
                        }
                        lemma_prefix_push(rs, j as int);
                        assert(has_id(rs.take(j as int), rs[j as int].id));
                    }
                },
                None => {
                    proof {
                        assert(!conflict_at(rs, j as int)) by {
                            if conflict_at(rs, j as int) {
                                let t = rs.take(j as int);
                                let i3 = conflict_witness(rs, j as int);
                                assert(t[i3] == rs[i3]);
                                assert(t[i3].id == rs[j as int].id);
                                assert(has_id(t, rs[j as int].id));
                                assert(entries_map(t).contains_key(rs[j as int].id));
                                assert(entries_map(acc@).contains_key(rs[j as int].id));
                                assert(has_id(acc@, rs[j as int].id));
                            }
                        }
                        lemma_prefix_push(rs, j as int);
                    }
                    insert_sorted(&mut acc, revisions[j].duplicate());
                },
            }
            j = j + 1;
        }
        proof {
            assert(rs.take(rs.len() as int) =~= rs);
            lemma_conflict_free_prefix(rs, rs.len() as int);
        }
        match check_graph(&acc) {
            Ok(()) => {
                proof {
                    lemma_entries_map_basic(acc@);
                }
                Ok(ScalarRegister { revisions: acc })
            },
            Err(e) => Err(e),
        }
    }

    /// State merge. Duplicate delivery of an identical statement is harmless;
    /// reuse of one identity for different statements is refused (the
    /// canonically smallest such identity is reported).
    pub fn merge(&self, other: &ScalarRegister) -> (r: Result<Self, CoreError>)
        ensures
            r is Ok <==> compatible(self@, other@),
            r is Ok <==> merge_graphs(self@, other@) is Some,
            r matches Ok(x) ==> x@ == self@.union_prefer_right(other@) && merge_graphs(self@, other@) == Some(x@),
            r matches Err(e) ==> exists|k: RevisionId| e == (CoreError::DuplicateRevisionConflict { revision_id: k })
                && first_conflict(self@, other@, k),
    {
        proof {
            use_type_invariant(self);
            use_type_invariant(other);
        }
        let os = &other.revisions;
        let mut v = copy_revisions(&self.revisions);
        let mut j: usize = 0;
        proof {
            assert(os@.take(0) =~= Seq::<ScalarRevision>::empty());
            assert(entries_map(os@.take(0)) =~= Map::<RevisionId, RevisionModel>::empty());
            assert(self@.union_prefer_right(Map::<RevisionId, RevisionModel>::empty()) =~= self@);
        }
        while j < os.len()
            invariant
                j <= os@.len(),
                sorted_revs(os@),
                sorted_revs(v@),
                entries_map(os@) == other@,
                entries_map(v@) == self@.union_prefer_right(entries_map(os@.take(j as int))),
                forall|j2: int| 0 <= j2 < j && self@.contains_key(#[trigger] os@[j2].id) ==> self@[os@[j2].id] == os@[j2]@,
            decreases os.len() - j,
        {
            let ghost t = os@.take(j as int);
            let ghost x = os@[j as int];
            proof {
                assert(!has_id(t, x.id)) by {
                    if has_id(t, x.id) {
                        let i = choose|i: int| 0 <= i < t.len() && #[trigger] t[i].id == x.id;
                        lemma_sorted_distinct(os@, i, j as int);
                    }
                }
                assert forall|k: RevisionId| #[trigger] has_id(t, k) implies entries_map(t)[k] == other@[k] by {
                    let i = choose|i: int| 0 <= i < t.len() && #[trigger] t[i].id == k;
                    assert(sorted_revs(t));
                    lemma_entries_map_at(t, i);
                    lemma_entries_map_at(os@, i);
                }
                lemma_entries_map_at(os@, j as int);
                assert(sorted_revs(os@.take(j as int + 1)));
                lemma_entries_map_insert(t, j as int, x);
                assert(t.insert(j as int, x) =~= os@.take(j as int + 1));
            }
            match find_revision(&v, &os[j].id) {
                Some(i) => {
                    proof {
                        lemma_entries_map_at(v@, i as int);
                        assert(self@.contains_key(x.id));
                        assert(entries_map(v@)[x.id] == self@[x.id]);
                    }
                    if !v[i].same_statement(&os[j]) {
                        proof {
                            let k = x.id;
                            assert forall|k2: RevisionId|
                                #![trigger self@.contains_key(k2), other@.contains_key(k2)]
                                self@.contains_key(k2) && other@.contains_key(k2) && self@[k2] != other@[k2] implies k2 == k || lex_lt(k@, k2@) by {
                                let j2 = choose|j2: int| 0 <= j2 < os@.len() && #[trigger] os@[j2].id == k2;
                                lemma_entries_map_at(os@, j2);
                                if j2 < j {
                                } else if j2 > j {
                                    assert(rid_lt(k, k2));
                                }
                            }
                            assert(other@[k] == x@);
                            assert(self@[k] != other@[k]);
                            assert(first_conflict(self@, other@, k));
                        }
                        return Err(CoreError::DuplicateRevisionConflict { revision_id: os[j].id });
                    }
                    proof {
                        assert(self@.union_prefer_right(entries_map(t).insert(x.id, x@)) =~= self@.union_prefer_right(entries_map(t)));
                    }
                },
                None => {
                    proof {
                        assert(!has_id(v@, x.id));
                        assert(!entries_map(v@).contains_key(x.id));
                        assert(!self@.contains_key(x.id));
                        assert(self@.union_prefer_right(entries_map(t).insert(x.id, x@)) =~= self@.union_prefer_right(entries_map(t)).insert(x.id, x@));
                    }
                    insert_sorted(&mut v, os[j].duplicate());
                },
            }
            j = j + 1;
        }
        proof {
            assert(os@.take(os@.len() as int) =~= os@);
            assert forall|k: RevisionId| #[trigger] self@.contains_key(k) && other@.contains_key(k) implies self@[k] == other@[k] by {
                let j2 = choose|j2: int| 0 <= j2 < os@.len() && #[trigger] os@[j2].id == k;
                lemma_entries_map_at(os@, j2);
            }
            lemma_union_valid(self@, other@);
        }
        Ok(ScalarRegister { revisions: v })
    }
}

impl Clone for ScalarRegister {
    fn clone(&self) -> (r: Self)
        ensures
            r@ == self@,
    {
        self.duplicate()
    }
}

impl Default for ScalarRegister {
    fn default() -> (r: Self)
        ensures
            r@ == Map::<RevisionId, RevisionModel>::empty(),
    {
        ScalarRegister::new()
    }
}

} // verus!
