//! Canonically ordered sets of revision identities.
use vstd::prelude::*;

use crate::id::RevisionId;
use crate::order::{lex_lt, lemma_lex_irreflexive, lemma_lex_total, lemma_lex_transitive};

verus! {

broadcast use RevisionId::lemma_view_len;

/// Canonical strict order of revision identities.
pub open spec fn rid_lt(a: RevisionId, b: RevisionId) -> bool {
    lex_lt(a@, b@)
}

/// A sequence strictly increasing in canonical identity order.
pub open spec fn sorted_ids(s: Seq<RevisionId>) -> bool {
    forall|i: int, j: int| 0 <= i < j < s.len() ==> rid_lt(#[trigger] s[i], #[trigger] s[j])
}

pub proof fn lemma_rid_total(a: RevisionId, b: RevisionId)
    ensures
        a == b || rid_lt(a, b) || rid_lt(b, a),
        !(rid_lt(a, b) && rid_lt(b, a)),
        !rid_lt(a, a),
{
    lemma_lex_total(a@, b@);
    lemma_lex_irreflexive(a@);
    RevisionId::lemma_view_injective(a, b);
}

pub proof fn lemma_rid_transitive(a: RevisionId, b: RevisionId, c: RevisionId)
    requires
        rid_lt(a, b),
        rid_lt(b, c),
    ensures
        rid_lt(a, c),
{
    lemma_lex_transitive(a@, b@, c@);
}

/// A strictly sorted sequence has no repeated identity.
pub proof fn lemma_sorted_no_duplicates(s: Seq<RevisionId>)
    requires
        sorted_ids(s),
    ensures
        s.no_duplicates(),
        s.to_set().len() == s.len(),
        s.to_set().finite(),
{
    assert forall|i: int, j: int| 0 <= i < s.len() && 0 <= j < s.len() && i != j implies s[i]
        != s[j] by {
        if i < j {
            lemma_rid_total(s[i], s[j]);
        } else {
            lemma_rid_total(s[j], s[i]);
        }
    }
    s.unique_seq_to_set();
    vstd::seq_lib::seq_to_set_is_finite(s);
}

/// Two strictly sorted sequences holding the same identities are equal.
pub proof fn lemma_sorted_unique(a: Seq<RevisionId>, b: Seq<RevisionId>)
    requires
        sorted_ids(a),
        sorted_ids(b),
        a.to_set() == b.to_set(),
    ensures
        a == b,
    decreases a.len(),
{
    lemma_sorted_no_duplicates(a);
    lemma_sorted_no_duplicates(b);
    if a.len() == 0 {
        if b.len() > 0 {
            assert(b.to_set().contains(b[0]));
        }
        assert(a =~= b);
    } else {
        assert(b.len() > 0) by {
            assert(a.to_set().contains(a[0]));
        }
        // The first elements are both minimal, hence equal.
        assert(a.to_set().contains(b[0]));
        assert(b.to_set().contains(a[0]));
        let ia = choose|i: int| 0 <= i < a.len() && a[i] == b[0];
        let ib = choose|i: int| 0 <= i < b.len() && b[i] == a[0];
        if ia > 0 {
            assert(rid_lt(a[0], a[ia]));
            if ib > 0 {
                assert(rid_lt(b[0], b[ib]));
                lemma_rid_total(a[0], b[0]);
            }
        }
        assert(a[0] == b[0]) by {
            if a[0] != b[0] {
                if ia > 0 {
                    assert(rid_lt(a[0], b[0]));
                    if ib > 0 {
                        assert(rid_lt(b[0], a[0]));
                        lemma_rid_total(a[0], b[0]);
                    } else {
                        assert(b[0] == a[0]);
                    }
                } else {
                    assert(a[0] == b[0]);
                }
            }
        }
        let a1 = a.drop_first();
        let b1 = b.drop_first();
        assert forall|x: RevisionId| a1.to_set().contains(x) implies b1.to_set().contains(x) by {
            let i = choose|i: int| 0 <= i < a1.len() && a1[i] == x;
            assert(a.to_set().contains(x));
            assert(x != a[0]) by {
                assert(a[i + 1] == x);
                assert(rid_lt(a[0], a[i + 1]));
                lemma_rid_total(a[0], x);
            }
            let j = choose|j: int| 0 <= j < b.len() && b[j] == x;
            assert(j > 0);
            assert(b1[j - 1] == x);
        }
        assert forall|x: RevisionId| b1.to_set().contains(x) implies a1.to_set().contains(x) by {
            let i = choose|i: int| 0 <= i < b1.len() && b1[i] == x;
            assert(b.to_set().contains(x));
            assert(x != b[0]) by {
                assert(b[i + 1] == x);
                assert(rid_lt(b[0], b[i + 1]));
                lemma_rid_total(b[0], x);
            }
            let j = choose|j: int| 0 <= j < a.len() && a[j] == x;
            assert(j > 0);
            assert(a1[j - 1] == x);
        }
        assert(a1.to_set() =~= b1.to_set());
        lemma_sorted_unique(a1, b1);
        assert(a =~= b) by {
            assert forall|i: int| 0 <= i < a.len() implies a[i] == b[i] by {
                if i > 0 {
                    assert(a[i] == a1[i - 1]);
                    assert(b[i] == b1[i - 1]);
                }
            }
        }
    }
}

/// A set of revision identities, held in canonical order.
#[derive(PartialEq, Eq, Debug)]
pub struct RevisionSet {
    ids: Vec<RevisionId>,
}

impl View for RevisionSet {
    type V = Set<RevisionId>;

    closed spec fn view(&self) -> Set<RevisionId> {
        self.ids@.to_set()
    }
}

impl RevisionSet {
    #[verifier::type_invariant]
    spec fn inv(self) -> bool {
        sorted_ids(self.ids@)
    }

    /// The members in canonical ascending order.
    pub closed spec fn as_seq(self) -> Seq<RevisionId> {
        self.ids@
    }

    pub fn new() -> (s: Self)
        ensures
            s@ == Set::<RevisionId>::empty(),
            s.as_seq() == Seq::<RevisionId>::empty(),
    {
        let s = RevisionSet { ids: Vec::new() };
        assert(s@ =~= Set::<RevisionId>::empty());
        s
    }

    /// Builds a set from identities given in any order; repeats collapse.
    pub fn from_ids(ids: Vec<RevisionId>) -> (s: Self)
        ensures
            s@ == ids@.to_set(),
    {
        let mut s = RevisionSet::new();
        let mut i: usize = 0;
        while i < ids.len()
            invariant
                i <= ids.len(),
                s@ == ids@.take(i as int).to_set(),
            decreases ids.len() - i,
        {
            s.insert(ids[i]);
            assert(ids@.take(i as int + 1) =~= ids@.take(i as int).push(ids@[i as int]));
            proof { ids@.take(i as int).lemma_push_to_set_commute(ids@[i as int]); }
            i = i + 1;
        }
        assert(ids@.take(ids.len() as int) =~= ids@);
        s
    }

    pub proof fn lemma_seq_view(&self)
        ensures
            self.as_seq().to_set() == self@,
    {
    }

    pub fn len(&self) -> (n: usize)
        ensures
            n == self@.len(),
            n == self.as_seq().len(),
            self@.finite(),
    {
        proof {
            use_type_invariant(self);
            lemma_sorted_no_duplicates(self.ids@);
        }
        self.ids.len()
    }

    pub fn is_empty(&self) -> (b: bool)
        ensures
            b == (self@ == Set::<RevisionId>::empty()),
    {
        proof {
            use_type_invariant(self);
            lemma_sorted_no_duplicates(self.ids@);
            if self.ids@.len() > 0 {
                assert(self@.contains(self.ids@[0]));
            } else {
                assert(self@ =~= Set::<RevisionId>::empty());
            }
        }
        self.ids.len() == 0
    }

    pub fn contains(&self, id: &RevisionId) -> (b: bool)
        ensures
            b == self@.contains(*id),
    {
        let mut i: usize = 0;
        while i < self.ids.len()
            invariant
                i <= self.ids.len(),
                forall|j: int| 0 <= j < i ==> self.ids@[j] != *id,
            decreases self.ids.len() - i,
        {
            if self.ids[i].same(id) {
                assert(self.ids@.to_set().contains(self.ids@[i as int]));
                return true;
            }
            i = i + 1;
        }
        false
    }

    /// Adds one identity, keeping canonical order. Returns whether it was new.
    pub fn insert(&mut self, id: RevisionId) -> (added: bool)
        ensures
            final(self)@ == old(self)@.insert(id),
            added == !old(self)@.contains(id),
    {
        proof {
            use_type_invariant(&*self);
        }
        let mut i: usize = 0;
        while i < self.ids.len() && self.ids[i].compare(&id) < 0
            invariant
                i <= self.ids.len(),
                sorted_ids(self.ids@),
                forall|j: int| 0 <= j < i ==> rid_lt(#[trigger] self.ids@[j], id),
            decreases self.ids.len() - i,
        {
            i = i + 1;
        }
        if i < self.ids.len() && self.ids[i].same(&id) {
            assert(self@.contains(id));
            assert(self@.insert(id) =~= self@);
            return false;
        }
        proof {
            assert forall|j: int| i <= j < self.ids@.len() implies rid_lt(id, self.ids@[j]) by {
                lemma_rid_total(self.ids@[i as int], id);
                if j > i {
                    lemma_rid_transitive(id, self.ids@[i as int], self.ids@[j]);
                }
            }
            assert(!self@.contains(id)) by {
                if self@.contains(id) {
                    let k = choose|k: int| 0 <= k < self.ids@.len() && self.ids@[k] == id;
                    if k < i {
                        lemma_rid_total(id, id);
                    } else {
                        lemma_rid_total(id, id);
                    }
                }
            }
        }
        let ghost old_ids = self.ids@;
        let ghost ids = old_ids.insert(i as int, id);
        proof {
            assert forall|a: int, b: int| 0 <= a < b < ids.len() implies rid_lt(
                #[trigger] ids[a],
                #[trigger] ids[b],
            ) by {
                if b < i {
                } else if b == i {
                } else if a < i {
                    lemma_rid_transitive(ids[a], id, ids[b]);
                } else if a == i {
                } else {
                }
            }
            assert(ids.to_set() =~= old_ids.to_set().insert(id)) by {
                assert forall|x: RevisionId| ids.to_set().contains(x) implies old_ids.to_set().insert(
                    id,
                ).contains(x) by {
                    let k = choose|k: int| 0 <= k < ids.len() && ids[k] == x;
                    if k < i {
                        assert(old_ids[k] == x);
                    } else if k > i {
                        assert(old_ids[k - 1] == x);
                    }
                }
                assert forall|x: RevisionId| old_ids.to_set().insert(id).contains(x) implies ids.to_set().contains(
                    x,
                ) by {
                    if x == id {
                        assert(ids[i as int] == id);
                    } else {
                        let k = choose|k: int| 0 <= k < old_ids.len() && old_ids[k] == x;
                        if k < i {
                            assert(ids[k] == x);
                        } else {
                            assert(ids[k + 1] == x);
                        }
                    }
                }
            }
        }
        let mut taken: Vec<RevisionId> = Vec::new();
        std::mem::swap(&mut taken, &mut self.ids);
        taken.insert(i, id);
        assert(taken@ == ids);
        self.ids = taken;
        true
    }

    /// The members in canonical ascending order.
    pub fn to_vec(&self) -> (v: Vec<RevisionId>)
        ensures
            v@ == self.as_seq(),
            sorted_ids(v@),
            v@.to_set() == self@,
            v@.no_duplicates(),
            v@.len() == self@.len(),
    {
        proof {
            use_type_invariant(self);
            lemma_sorted_no_duplicates(self.ids@);
        }
        let v = self.ids.clone();
        assert(v@ =~= self.ids@);
        v
    }

    /// A copy with the same members.
    pub fn duplicate(&self) -> (s: Self)
        ensures
            s@ == self@,
            s.as_seq() == self.as_seq(),
    {
        proof {
            use_type_invariant(self);
        }
        let v = self.ids.clone();
        assert(v@ =~= self.ids@);
        RevisionSet { ids: v }
    }

    /// Set equality.
    pub fn same(&self, other: &RevisionSet) -> (b: bool)
        ensures
            b == (self@ == other@),
    {
        proof {
            use_type_invariant(self);
            use_type_invariant(other);
            lemma_sorted_no_duplicates(self.ids@);
            lemma_sorted_no_duplicates(other.ids@);
            if self@ == other@ {
                lemma_sorted_unique(self.ids@, other.ids@);
            }
        }
        if self.ids.len() != other.ids.len() {
            return false;
        }
        let mut i: usize = 0;
        while i < self.ids.len()
            invariant
                i <= self.ids.len(),
                self.ids.len() == other.ids.len(),
                self@ == other@ ==> self.ids@ == other.ids@,
                forall|j: int| 0 <= j < i ==> self.ids@[j] == other.ids@[j],
            decreases self.ids.len() - i,
        {
            if !self.ids[i].same(&other.ids[i]) {
                return false;
            }
            i = i + 1;
        }
        assert(self.ids@ =~= other.ids@);
        true
    }

    /// Whether every member also belongs to `other`.
    pub fn is_subset_of(&self, other: &RevisionSet) -> (b: bool)
        ensures
            b == self@.subset_of(other@),
    {
        let mut i: usize = 0;
        while i < self.ids.len()
            invariant
                i <= self.ids.len(),
                forall|j: int| 0 <= j < i ==> other@.contains(#[trigger] self.ids@[j]),
            decreases self.ids.len() - i,
        {
            if !other.contains(&self.ids[i]) {
                assert(self@.contains(self.ids@[i as int]));
                return false;
            }
            i = i + 1;
        }
        assert forall|x: RevisionId| self@.contains(x) implies other@.contains(x) by {
            let k = choose|k: int| 0 <= k < self.ids@.len() && self.ids@[k] == x;
        }
        true
    }

    /// Adds every member of `other`.
    pub fn extend_from(&mut self, other: &RevisionSet)
        ensures
            final(self)@ == old(self)@.union(other@),
    {
        let v = other.to_vec();
        let mut i: usize = 0;
        while i < v.len()
            invariant
                i <= v.len(),
                v@.to_set() == other@,
                self@ == old(self)@.union(v@.take(i as int).to_set()),
            decreases v.len() - i,
        {
            self.insert(v[i]);
            assert(v@.take(i as int + 1) =~= v@.take(i as int).push(v@[i as int]));
            proof { v@.take(i as int).lemma_push_to_set_commute(v@[i as int]); }
            assert(self@ =~= old(self)@.union(v@.take(i as int + 1).to_set()));
            i = i + 1;
        }
        assert(v@.take(v.len() as int) =~= v@);
    }

    /// The canonically greatest member, if any.
    pub fn last(&self) -> (r: Option<RevisionId>)
        ensures
            r is None <==> self@ == Set::<RevisionId>::empty(),
            r matches Some(x) ==> self@.contains(x) && forall|y: RevisionId| #[trigger]
                self@.contains(y) ==> y == x || rid_lt(y, x),
    {
        proof {
            use_type_invariant(self);
        }
        if self.ids.len() == 0 {
            assert(self@ =~= Set::<RevisionId>::empty());
            None
        } else {
            let n = self.ids.len();
            let x = self.ids[n - 1];
            assert(self@.contains(x));
            assert forall|y: RevisionId| #[trigger] self@.contains(y) implies y == x || rid_lt(
                y,
                x,
            ) by {
                let k = choose|k: int| 0 <= k < self.ids@.len() && self.ids@[k] == y;
                if k < n - 1 {
                    assert(rid_lt(self.ids@[k], self.ids@[n - 1]));
                }
            }
            Some(x)
        }
    }
}

impl Clone for RevisionSet {
    fn clone(&self) -> (s: Self)
        ensures
            s@ == self@,
    {
        self.duplicate()
    }
}

impl Default for RevisionSet {
    fn default() -> (s: Self)
        ensures
            s@ == Set::<RevisionId>::empty(),
    {
        RevisionSet::new()
    }
}

} // verus!
