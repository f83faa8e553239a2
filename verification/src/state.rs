//! Stable atom-identity maps and the continuum shell, with state merge.
use vstd::prelude::*;

use crate::error::CoreError;
use crate::id::{AtomId, ContinuumId};
use crate::merge::{lemma_scalar_merge_laws, merge_associates, merge_commutes, merge_idempotent, merge_left, merge_right, MergeState};
use crate::scalar::ScalarRegister;
use crate::order::{lemma_lex_total, lemma_lex_transitive, lex_lt};

verus! {

/// Identities strictly increasing in canonical order.
pub open spec fn sorted_atom_ids(s: Seq<AtomId>) -> bool {
    forall|i: int, j: int| 0 <= i < j < s.len() ==> lex_lt(#[trigger] s[i]@, #[trigger] s[j]@)
}

/// The map held by parallel identity and atom sequences.
pub open spec fn atoms_view<A: View>(ids: Seq<AtomId>, atoms: Seq<A>) -> Map<AtomId, A::V> {
    Map::new(
        |k: AtomId| ids.contains(k),
        |k: AtomId| atoms[choose|i: int| 0 <= i < ids.len() && ids[i] == k]@,
    )
}

pub proof fn lemma_sorted_atom_ids_distinct(s: Seq<AtomId>, i: int, j: int)
    requires
        sorted_atom_ids(s),
        0 <= i < s.len(),
        0 <= j < s.len(),
        i != j,
    ensures
        s[i] != s[j],
{
    if i < j {
        lemma_lex_total(s[i]@, s[j]@);
    } else {
        lemma_lex_total(s[j]@, s[i]@);
    }
}

/// The atom stored at each position is the map's entry for its identity.
pub proof fn lemma_atoms_view_at<A: View>(ids: Seq<AtomId>, atoms: Seq<A>, i: int)
    requires
        sorted_atom_ids(ids),
        0 <= i < ids.len(),
    ensures
        atoms_view(ids, atoms).contains_key(ids[i]),
        atoms_view(ids, atoms)[ids[i]] == atoms[i]@,
{
    assert(ids.contains(ids[i]));
    let j = choose|j: int| 0 <= j < ids.len() && ids[j] == ids[i];
    if j != i {
        lemma_sorted_atom_ids_distinct(ids, i, j);
    }
}

/// The number of identities held.
pub proof fn lemma_atoms_view_len<A: View>(ids: Seq<AtomId>, atoms: Seq<A>)
    requires
        sorted_atom_ids(ids),
    ensures
        atoms_view(ids, atoms).dom().finite(),
        atoms_view(ids, atoms).dom().len() == ids.len(),
{
    assert(atoms_view(ids, atoms).dom() =~= ids.to_set());
    assert(ids.no_duplicates()) by {
        assert forall|i: int, j: int| 0 <= i < ids.len() && 0 <= j < ids.len() && i != j implies ids[i] != ids[j] by {
            lemma_sorted_atom_ids_distinct(ids, i, j);
        }
    }
    ids.unique_seq_to_set();
    vstd::seq_lib::seq_to_set_is_finite(ids);
}

/// Replacing the atom at one position.
pub proof fn lemma_atoms_view_update<A: View>(ids: Seq<AtomId>, atoms: Seq<A>, i: int)
    requires
        sorted_atom_ids(ids),
        ids.len() == atoms.len(),
        0 <= i < ids.len(),
    ensures
        forall|v: A| #[trigger] atoms_view(ids, atoms.update(i, v)) == atoms_view(ids, atoms).insert(ids[i], v@),
{
    assert forall|v: A| #[trigger] atoms_view(ids, atoms.update(i, v)) == atoms_view(ids, atoms).insert(ids[i], v@) by {
        let m1 = atoms_view(ids, atoms.update(i, v));
        let m2 = atoms_view(ids, atoms).insert(ids[i], v@);
        assert forall|k: AtomId| m1.contains_key(k) implies m1[k] == m2[k] by {
            let j = choose|j: int| 0 <= j < ids.len() && ids[j] == k;
            lemma_atoms_view_at(ids, atoms.update(i, v), j);
            if j != i {
                lemma_atoms_view_at(ids, atoms, j);
                lemma_sorted_atom_ids_distinct(ids, i, j);
            }
        }
        assert(m1 =~= m2);
    }
}

/// Inserting a fresh identity at its sorted position.
pub proof fn lemma_atoms_view_insert<A: View>(ids: Seq<AtomId>, atoms: Seq<A>, pos: int, id: AtomId, atom: A)
    requires
        sorted_atom_ids(ids),
        ids.len() == atoms.len(),
        0 <= pos <= ids.len(),
        forall|j: int| 0 <= j < pos ==> lex_lt(#[trigger] ids[j]@, id@),
        forall|j: int| pos <= j < ids.len() ==> lex_lt(id@, #[trigger] ids[j]@),
    ensures
        sorted_atom_ids(ids.insert(pos, id)),
        atoms_view(ids.insert(pos, id), atoms.insert(pos, atom)) == atoms_view(ids, atoms).insert(id, atom@),
        !ids.contains(id),
{
    let t = ids.insert(pos, id);
    let u = atoms.insert(pos, atom);
    assert forall|a: int, b: int| 0 <= a < b < t.len() implies lex_lt(#[trigger] t[a]@, #[trigger] t[b]@) by {
        if b < pos {
        } else if b == pos {
        } else if a < pos {
            lemma_lex_transitive(t[a]@, id@, t[b]@);
        } else if a == pos {
        } else {
        }
    }
    assert(!ids.contains(id)) by {
        if ids.contains(id) {
            let k = choose|k: int| 0 <= k < ids.len() && ids[k] == id;
            lemma_lex_total(id@, id@);
        }
    }
    let m1 = atoms_view(t, u);
    let m2 = atoms_view(ids, atoms).insert(id, atom@);
    assert forall|k: AtomId| m1.contains_key(k) == m2.contains_key(k) by {
        if t.contains(k) {
            let i = choose|i: int| 0 <= i < t.len() && t[i] == k;
            if i < pos {
                assert(ids[i] == k);
            } else if i > pos {
                assert(ids[i - 1] == k);
            }
        }
        if ids.contains(k) {
            let i = choose|i: int| 0 <= i < ids.len() && ids[i] == k;
            if i < pos {
                assert(t[i] == k);
            } else {
                assert(t[i + 1] == k);
            }
        }
        if k == id {
            assert(t[pos] == k);
        }
    }
    assert forall|k: AtomId| m1.contains_key(k) implies m1[k] == m2[k] by {
        let i = choose|i: int| 0 <= i < t.len() && t[i] == k;
        lemma_atoms_view_at(t, u, i);
        if i < pos {
            lemma_atoms_view_at(ids, atoms, i);
        } else if i > pos {
            lemma_atoms_view_at(ids, atoms, i - 1);
        }
    }
    assert(m1 =~= m2);
}

/// Finds the position of an identity by linear scan.
fn find_atom(ids: &Vec<AtomId>, atom_id: &AtomId) -> (r: Option<usize>)
    ensures
        r matches Some(i) ==> i < ids@.len() && ids@[i as int] == *atom_id,
        r is None ==> !ids@.contains(*atom_id),
{
    let mut i: usize = 0;
    while i < ids.len()
        invariant
            i <= ids@.len(),
            forall|j: int| 0 <= j < i ==> ids@[j] != *atom_id,
        decreases ids@.len() - i,
    {
        if ids[i].same(atom_id) {
            return Some(i);
        }
        i = i + 1;
    }
    None
}

/// Inserts an atom under a fresh identity at its canonical position.
fn insert_atom<A: View>(ids: &mut Vec<AtomId>, atoms: &mut Vec<A>, atom_id: AtomId, atom: A)
    requires
        sorted_atom_ids(old(ids)@),
        old(ids)@.len() == old(atoms)@.len(),
        !old(ids)@.contains(atom_id),
    ensures
        sorted_atom_ids(final(ids)@),
        final(ids)@.len() == final(atoms)@.len(),
        atoms_view(final(ids)@, final(atoms)@) == atoms_view(old(ids)@, old(atoms)@).insert(atom_id, atom@),
{
    let mut i: usize = 0;
    while i < ids.len() && ids[i].compare(&atom_id) < 0
        invariant
            i <= ids@.len(),
            ids@ == old(ids)@,
            forall|j: int| 0 <= j < i ==> lex_lt(#[trigger] ids@[j]@, atom_id@),
        decreases ids@.len() - i,
    {
        i = i + 1;
    }
    proof {
        assert forall|j: int| i <= j < ids@.len() implies lex_lt(atom_id@, #[trigger] ids@[j]@) by {
            lemma_lex_total(ids@[i as int]@, atom_id@);
            assert(ids@[i as int] != atom_id);
            crate::id::AtomId::lemma_view_injective(ids@[i as int], atom_id);
            if j > i {
                lemma_lex_transitive(atom_id@, ids@[i as int]@, ids@[j]@);
            }
        }
        lemma_atoms_view_insert(ids@, atoms@, i as int, atom_id, atom);
    }
    ids.insert(i, atom_id);
    atoms.insert(i, atom);
}

/// Building the map over growing prefixes of sorted sequences.
pub proof fn lemma_atoms_view_take<A: View>(ids: Seq<AtomId>, atoms: Seq<A>, j: int)
    requires
        sorted_atom_ids(ids),
        ids.len() == atoms.len(),
        0 <= j < ids.len(),
    ensures
        atoms_view(ids.take(j + 1), atoms.take(j + 1)) == atoms_view(ids.take(j), atoms.take(j)).insert(ids[j], atoms[j]@),
        !ids.take(j).contains(ids[j]),
        sorted_atom_ids(ids.take(j)),
{
    let t = ids.take(j);
    assert(sorted_atom_ids(t));
    assert forall|i: int| 0 <= i < j implies lex_lt(#[trigger] t[i]@, ids[j]@) by {
        assert(t[i] == ids[i]);
    }
    lemma_atoms_view_insert(t, atoms.take(j), j, ids[j], atoms[j]);
    assert(t.insert(j, ids[j]) =~= ids.take(j + 1));
    assert(atoms.take(j).insert(j, atoms[j]) =~= atoms.take(j + 1));
}

/// The map depends only on the views of the atoms.
pub proof fn lemma_atoms_view_same_views<A: View>(ids: Seq<AtomId>, atoms: Seq<A>, copies: Seq<A>)
    requires
        atoms.len() == copies.len(),
        forall|i: int| 0 <= i < atoms.len() ==> (#[trigger] copies[i])@ == atoms[i]@,
        ids.len() == atoms.len(),
    ensures
        atoms_view(ids, copies) == atoms_view(ids, atoms),
{
    assert(atoms_view(ids, copies) =~= atoms_view(ids, atoms));
}

/// Two atom maps disagree irreconcilably on `k`.
pub open spec fn atom_merge_fails<A: MergeState>(a: Map<AtomId, A::V>, b: Map<AtomId, A::V>, k: AtomId) -> bool {
    a.contains_key(k) && b.contains_key(k) && A::merge_spec(a[k], b[k]) is None
}

/// `k` is the canonically smallest identity whose atoms refuse to merge.
pub open spec fn first_atom_failure<A: MergeState>(a: Map<AtomId, A::V>, b: Map<AtomId, A::V>, k: AtomId) -> bool {
    &&& atom_merge_fails::<A>(a, b, k)
    &&& forall|k2: AtomId| #[trigger] atom_merge_fails::<A>(a, b, k2) ==> k2 == k || lex_lt(k@, k2@)
}

/// Atom-wise merge: shared atoms merge by their own merge, the others are
/// kept as they are.
pub open spec fn merged_atoms<A: MergeState>(a: Map<AtomId, A::V>, b: Map<AtomId, A::V>) -> Map<AtomId, A::V> {
    Map::new(
        |k: AtomId| a.contains_key(k) || b.contains_key(k),
        |k: AtomId|
            if a.contains_key(k) && b.contains_key(k) {
                A::merge_spec(a[k], b[k])->Some_0
            } else if b.contains_key(k) {
                b[k]
            } else {
                a[k]
            },
    )
}

/// Merge of two atom maps; refused when a shared atom refuses to merge.
pub open spec fn merge_atom_maps<A: MergeState>(a: Map<AtomId, A::V>, b: Map<AtomId, A::V>) -> Option<Map<AtomId, A::V>> {
    if exists|k: AtomId| atom_merge_fails::<A>(a, b, k) {
        None
    } else {
        Some(merged_atoms::<A>(a, b))
    }
}

/// The identity reported by a refused atom-map merge.
pub open spec fn atom_failure<A: MergeState>(a: Map<AtomId, A::V>, b: Map<AtomId, A::V>) -> AtomId {
    choose|k: AtomId| first_atom_failure::<A>(a, b, k)
}

pub proof fn lemma_first_atom_failure_unique<A: MergeState>(a: Map<AtomId, A::V>, b: Map<AtomId, A::V>, k1: AtomId, k2: AtomId)
    requires
        first_atom_failure::<A>(a, b, k1),
        first_atom_failure::<A>(a, b, k2),
    ensures
        k1 == k2,
{
    lemma_lex_total(k1@, k2@);
    AtomId::lemma_view_injective(k1, k2);
}

/// Copies atoms one by one.
fn copy_atoms<A: MergeState>(atoms: &Vec<A>) -> (v: Vec<A>)
    ensures
        v@.len() == atoms@.len(),
        forall|i: int| 0 <= i < atoms@.len() ==> (#[trigger] v@[i])@ == atoms@[i]@,
{
    let mut v: Vec<A> = Vec::new();
    let mut i: usize = 0;
    while i < atoms.len()
        invariant
            i <= atoms@.len(),
            v@.len() == i,
            forall|j: int| 0 <= j < i ==> (#[trigger] v@[j])@ == atoms@[j]@,
        decreases atoms@.len() - i,
    {
        v.push(atoms[i].copy_state());
        i = i + 1;
    }
    v
}

fn copy_ids(ids: &Vec<AtomId>) -> (v: Vec<AtomId>)
    ensures
        v@ == ids@,
{
    let mut v: Vec<AtomId> = Vec::new();
    let mut i: usize = 0;
    while i < ids.len()
        invariant
            i <= ids@.len(),
            v@ == ids@.take(i as int),
        decreases ids@.len() - i,
    {
        v.push(ids[i]);
        assert(ids@.take(i as int + 1) =~= ids@.take(i as int).push(ids@[i as int]));
        i = i + 1;
    }
    assert(ids@.take(ids@.len() as int) =~= ids@);
    v
}

/// Stable atom-identity map. Absence is not deletion; lifecycle state belongs
/// inside the atom payload.
#[derive(Debug, PartialEq, Eq)]
pub struct AtomMap<A> {
    ids: Vec<AtomId>,
    atoms: Vec<A>,
}

impl<A: View> View for AtomMap<A> {
    type V = Map<AtomId, A::V>;

    closed spec fn view(&self) -> Map<AtomId, A::V> {
        atoms_view(self.ids@, self.atoms@)
    }
}

impl<A> AtomMap<A> {
    #[verifier::type_invariant]
    spec fn inv(self) -> bool {
        &&& sorted_atom_ids(self.ids@)
        &&& self.ids@.len() == self.atoms@.len()
    }
}

impl<A: View> AtomMap<A> {
    pub fn get_mut(&mut self, atom_id: AtomId) -> (r: Option<&mut A>)
        ensures
            r is Some == old(self)@.contains_key(atom_id),
            r matches Some(x) ==> (*x)@ == old(self)@[atom_id] && final(self)@ == old(self)@.insert(atom_id, (*final(x))@),
            r is None ==> final(self)@ == old(self)@,
    {
        proof {
            use_type_invariant(&*self);
        }
        let mut i: usize = 0;
        while i < self.ids.len()
            invariant
                i <= self.ids@.len(),
                sorted_atom_ids(self.ids@),
                self.ids@.len() == self.atoms@.len(),
                self == old(self),
                forall|j: int| 0 <= j < i ==> self.ids@[j] != atom_id,
            decreases self.ids@.len() - i,
        {
            if self.ids[i].same(&atom_id) {
                proof {
                    lemma_atoms_view_update(self.ids@, self.atoms@, i as int);
                    lemma_atoms_view_at(self.ids@, self.atoms@, i as int);
                }
                return Some(&mut self.atoms[i]);
            }
            i = i + 1;
        }
        None
    }

    pub fn new() -> (m: Self)
        ensures
            m@ == Map::<AtomId, A::V>::empty(),
    {
        let m = AtomMap { ids: Vec::new(), atoms: Vec::new() };
        assert(m@ =~= Map::<AtomId, A::V>::empty());
        m
    }

    pub fn len(&self) -> (n: usize)
        ensures
            n == self@.dom().len(),
            self@.dom().finite(),
    {
        proof {
            use_type_invariant(self);
            lemma_atoms_view_len(self.ids@, self.atoms@);
        }
        self.ids.len()
    }

    pub fn is_empty(&self) -> (b: bool)
        ensures
            b == (self@ == Map::<AtomId, A::V>::empty()),
    {
        proof {
            use_type_invariant(self);
            if self.ids@.len() > 0 {
                lemma_atoms_view_at(self.ids@, self.atoms@, 0);
            } else {
                assert(self@ =~= Map::<AtomId, A::V>::empty());
            }
        }
        self.ids.len() == 0
    }

    pub fn get(&self, atom_id: AtomId) -> (r: Option<&A>)
        ensures
            r is Some == self@.contains_key(atom_id),
            r matches Some(x) ==> x@ == self@[atom_id],
    {
        proof {
            use_type_invariant(self);
        }
        match find_atom(&self.ids, &atom_id) {
            Some(i) => {
                proof {
                    lemma_atoms_view_at(self.ids@, self.atoms@, i as int);
                }
                Some(&self.atoms[i])
            },
            None => None,
        }
    }

    /// The atoms with their identities, in canonical identity order.
    pub fn iter(&self) -> (r: Vec<(AtomId, &A)>)
        ensures
            r@.len() == self@.dom().len(),
            forall|i: int, j: int| 0 <= i < j < r@.len() ==> lex_lt((#[trigger] r@[i]).0@, (#[trigger] r@[j]).0@),
            forall|i: int| 0 <= i < r@.len() ==> self@.contains_key((#[trigger] r@[i]).0) && self@[r@[i].0] == r@[i].1@,
            forall|k: AtomId| self@.contains_key(k) ==> exists|i: int| 0 <= i < r@.len() && (#[trigger] r@[i]).0 == k,
    {
        proof {
            use_type_invariant(self);
            lemma_atoms_view_len(self.ids@, self.atoms@);
        }
        let mut r: Vec<(AtomId, &A)> = Vec::new();
        let mut i: usize = 0;
        while i < self.ids.len()
            invariant
                i <= self.ids@.len(),
                self.ids@.len() == self.atoms@.len(),
                sorted_atom_ids(self.ids@),
                r@.len() == i,
                forall|j: int| 0 <= j < i ==> (#[trigger] r@[j]).0 == self.ids@[j] && r@[j].1 == &self.atoms@[j],
            decreases self.ids@.len() - i,
        {
            r.push((self.ids[i], &self.atoms[i]));
            i = i + 1;
        }
        proof {
            assert forall|i: int| 0 <= i < r@.len() implies self@.contains_key((#[trigger] r@[i]).0) && self@[r@[i].0] == r@[i].1@ by {
                lemma_atoms_view_at(self.ids@, self.atoms@, i);
            }
            assert forall|k: AtomId| self@.contains_key(k) implies exists|i: int| 0 <= i < r@.len() && (#[trigger] r@[i]).0 == k by {
                let j = choose|j: int| 0 <= j < self.ids@.len() && self.ids@[j] == k;
                assert(r@[j].0 == k);
            }
        }
        r
    }

    /// Adds an atom under a new identity; an identity already present is
    /// refused.
    pub fn insert_new(&mut self, atom_id: AtomId, atom: A) -> (r: Result<(), CoreError>)
        ensures
            old(self)@.contains_key(atom_id) ==> r == Err::<(), CoreError>(CoreError::DuplicateAtomId { atom_id })
                && final(self)@ == old(self)@,
            !old(self)@.contains_key(atom_id) ==> r is Ok && final(self)@ == old(self)@.insert(atom_id, atom@),
    {
        proof {
            use_type_invariant(&*self);
        }
        if find_atom(&self.ids, &atom_id).is_some() {
            return Err(CoreError::DuplicateAtomId { atom_id });
        }
        let mut m = AtomMap { ids: Vec::new(), atoms: Vec::new() };
        std::mem::swap(self, &mut m);
        let AtomMap { mut ids, mut atoms } = m;
        insert_atom(&mut ids, &mut atoms, atom_id, atom);
        *self = AtomMap { ids, atoms };
        Ok(())
    }
}

/// Merging into a map a fresh identity of the right-hand side.
pub proof fn lemma_merged_atoms_insert<A: MergeState>(a: Map<AtomId, A::V>, b: Map<AtomId, A::V>, k: AtomId, v: A::V)
    requires
        !b.contains_key(k),
    ensures
        merged_atoms::<A>(a, b.insert(k, v)) == merged_atoms::<A>(a, b).insert(
            k,
            if a.contains_key(k) {
                A::merge_spec(a[k], v)->Some_0
            } else {
                v
            },
        ),
{
    assert(merged_atoms::<A>(a, b.insert(k, v)) =~= merged_atoms::<A>(a, b).insert(
        k,
        if a.contains_key(k) {
            A::merge_spec(a[k], v)->Some_0
        } else {
            v
        },
    ));
}

impl<A: MergeState> MergeState for AtomMap<A> {
    open spec fn merge_spec(a: Map<AtomId, A::V>, b: Map<AtomId, A::V>) -> Option<Map<AtomId, A::V>> {
        merge_atom_maps::<A>(a, b)
    }

    open spec fn merge_error(a: Map<AtomId, A::V>, b: Map<AtomId, A::V>) -> CoreError {
        let k = atom_failure::<A>(a, b);
        A::merge_error(a[k], b[k])
    }

    /// Shared atoms merge by their own merge; the first shared identity, in
    /// canonical order, whose atoms refuse to merge reports its refusal.
    fn merge_state(&self, other: &Self) -> (r: Result<Self, CoreError>) {
        proof {
            use_type_invariant(self);
            use_type_invariant(other);
        }
        let mut ids = copy_ids(&self.ids);
        let mut atoms = copy_atoms(&self.atoms);
        proof {
            lemma_atoms_view_same_views(self.ids@, self.atoms@, atoms@);
            assert(other.ids@.take(0) =~= Seq::<AtomId>::empty());
            assert(atoms_view(other.ids@.take(0), other.atoms@.take(0)) =~= Map::<AtomId, A::V>::empty());
            assert(merged_atoms::<A>(self@, Map::<AtomId, A::V>::empty()) =~= self@);
        }
        let mut j: usize = 0;
        while j < other.ids.len()
            invariant
                j <= other.ids@.len(),
                sorted_atom_ids(other.ids@),
                other.ids@.len() == other.atoms@.len(),
                sorted_atom_ids(ids@),
                ids@.len() == atoms@.len(),
                atoms_view(ids@, atoms@) == merged_atoms::<A>(
                    self@,
                    atoms_view(other.ids@.take(j as int), other.atoms@.take(j as int)),
                ),
                forall|k: AtomId| !#[trigger] atom_merge_fails::<A>(
                    self@,
                    atoms_view(other.ids@.take(j as int), other.atoms@.take(j as int)),
                    k,
                ),
            decreases other.ids@.len() - j,
        {
            let ghost bj = atoms_view(other.ids@.take(j as int), other.atoms@.take(j as int));
            let ghost id = other.ids@[j as int];
            let ghost v = other.atoms@[j as int]@;
            proof {
                lemma_atoms_view_take(other.ids@, other.atoms@, j as int);
                assert(!bj.contains_key(id));
                lemma_merged_atoms_insert::<A>(self@, bj, id, v);
                lemma_atoms_view_at(other.ids@, other.atoms@, j as int);
            }
            match find_atom(&ids, &other.ids[j]) {
                Some(i) => {
                    proof {
                        lemma_atoms_view_at(ids@, atoms@, i as int);
                        assert(self@.contains_key(id));
                        assert(atoms@[i as int]@ == self@[id]);
                    }
                    let merged = atoms[i].merge_state(&other.atoms[j]);
                    match merged {
                        Err(e) => {
                            proof {
                                assert(atom_merge_fails::<A>(self@, other@, id));
                                assert forall|k2: AtomId| #[trigger] atom_merge_fails::<A>(self@, other@, k2) implies k2 == id || lex_lt(id@, k2@) by {
                                    let j2 = choose|j2: int| 0 <= j2 < other.ids@.len() && other.ids@[j2] == k2;
                                    lemma_atoms_view_at(other.ids@, other.atoms@, j2);
                                    if j2 < j {
                                        lemma_atoms_view_at(other.ids@.take(j as int), other.atoms@.take(j as int), j2);
                                        assert(atom_merge_fails::<A>(self@, bj, k2));
                                    } else if j2 > j {
                                        assert(lex_lt(other.ids@[j as int]@, other.ids@[j2]@));
                                    }
                                }
                                assert(first_atom_failure::<A>(self@, other@, id));
                                lemma_first_atom_failure_unique::<A>(self@, other@, id, atom_failure::<A>(self@, other@));
                            }
                            return Err(e);
                        },
                        Ok(m) => {
                            proof {
                                lemma_atoms_view_update(ids@, atoms@, i as int);
                            }
                            atoms.set(i, m);
                        },
                    }
                },
                None => {
                    proof {
                        assert(!self@.contains_key(id)) by {
                            if self@.contains_key(id) {
                                assert(merged_atoms::<A>(self@, bj).contains_key(id));
                            }
                        }
                    }
                    insert_atom(&mut ids, &mut atoms, other.ids[j], other.atoms[j].copy_state());
                },
            }
            proof {
                let bj1 = atoms_view(other.ids@.take(j as int + 1), other.atoms@.take(j as int + 1));
                assert(bj1 == bj.insert(id, v));
                assert forall|k: AtomId| !#[trigger] atom_merge_fails::<A>(self@, bj1, k) by {
                    if k != id {
                        assert(!atom_merge_fails::<A>(self@, bj, k));
                    }
                }
            }
            j = j + 1;
        }
        proof {
            assert(other.ids@.take(other.ids@.len() as int) =~= other.ids@);
            assert(other.atoms@.take(other.atoms@.len() as int) =~= other.atoms@);
            assert(!exists|k: AtomId| atom_merge_fails::<A>(self@, other@, k));
        }
        Ok(AtomMap { ids, atoms })
    }

    fn copy_state(&self) -> (r: Self) {
        proof {
            use_type_invariant(self);
        }
        let atoms = copy_atoms(&self.atoms);
        proof {
            lemma_atoms_view_same_views(self.ids@, self.atoms@, atoms@);
        }
        AtomMap { ids: copy_ids(&self.ids), atoms }
    }
}

/// Abstract content of a continuum.
pub ghost struct ContinuumModel<V> {
    pub continuum_id: ContinuumId,
    pub atoms: Map<AtomId, V>,
}

/// Merge of two continua: only states of the same continuum merge, atom by
/// atom.
pub open spec fn merge_continua<A: MergeState>(a: ContinuumModel<A::V>, b: ContinuumModel<A::V>) -> Option<ContinuumModel<A::V>> {
    if a.continuum_id != b.continuum_id {
        None
    } else {
        match merge_atom_maps::<A>(a.atoms, b.atoms) {
            Some(m) => Some(ContinuumModel { continuum_id: a.continuum_id, atoms: m }),
            None => None,
        }
    }
}

/// Minimal continuum shell: a stable continuum identity over an atom map.
#[derive(Debug, PartialEq, Eq)]
pub struct ContinuumState<A> {
    continuum_id: ContinuumId,
    atoms: AtomMap<A>,
}

impl<A: View> View for ContinuumState<A> {
    type V = ContinuumModel<A::V>;

    closed spec fn view(&self) -> ContinuumModel<A::V> {
        ContinuumModel { continuum_id: self.continuum_id, atoms: self.atoms@ }
    }
}

impl<A: View> ContinuumState<A> {
    pub fn new(continuum_id: ContinuumId) -> (s: Self)
        ensures
            s@ == (ContinuumModel { continuum_id, atoms: Map::<AtomId, A::V>::empty() }),
    {
        ContinuumState { continuum_id, atoms: AtomMap::new() }
    }

    pub fn continuum_id(&self) -> (id: ContinuumId)
        ensures
            id == self@.continuum_id,
    {
        self.continuum_id
    }

    pub fn atoms(&self) -> (r: &AtomMap<A>)
        ensures
            r@ == self@.atoms,
    {
        &self.atoms
    }

    pub fn atoms_mut(&mut self) -> (r: &mut AtomMap<A>)
        ensures
            r@ == old(self)@.atoms,
            final(self)@ == (ContinuumModel { continuum_id: old(self)@.continuum_id, atoms: final(r)@ }),
    {
        &mut self.atoms
    }
}

impl<A: MergeState> MergeState for ContinuumState<A> {
    open spec fn merge_spec(a: ContinuumModel<A::V>, b: ContinuumModel<A::V>) -> Option<ContinuumModel<A::V>> {
        merge_continua::<A>(a, b)
    }

    open spec fn merge_error(a: ContinuumModel<A::V>, b: ContinuumModel<A::V>) -> CoreError {
        if a.continuum_id != b.continuum_id {
            CoreError::ContinuumMismatch { left: a.continuum_id, right: b.continuum_id }
        } else {
            AtomMap::<A>::merge_error(a.atoms, b.atoms)
        }
    }

    /// Different continua never merge.
    fn merge_state(&self, other: &Self) -> (r: Result<Self, CoreError>) {
        if !self.continuum_id.same(&other.continuum_id) {
            return Err(CoreError::ContinuumMismatch { left: self.continuum_id, right: other.continuum_id });
        }
        let atoms = self.atoms.merge_state(&other.atoms)?;
        Ok(ContinuumState { continuum_id: self.continuum_id, atoms })
    }

    fn copy_state(&self) -> (r: Self) {
        ContinuumState { continuum_id: self.continuum_id, atoms: self.atoms.copy_state() }
    }
}

// ---------------------------------------------------------------- merge laws

/// The entry of `k`, none when absent.
pub open spec fn entry<V>(m: Map<AtomId, V>, k: AtomId) -> Option<V> {
    if m.contains_key(k) {
        Some(m[k])
    } else {
        None
    }
}

/// Merging two optional entries, absence being neutral; none when refused.
pub open spec fn merge_entries<A: MergeState>(x: Option<A::V>, y: Option<A::V>) -> Option<Option<A::V>> {
    match x {
        None => Some(y),
        Some(p) => match y {
            None => Some(x),
            Some(q) => match A::merge_spec(p, q) {
                Some(m) => Some(Some(m)),
                None => None,
            },
        },
    }
}

/// The entry of `k` after merging left to right; none when refused.
pub open spec fn column_left<A: MergeState>(a: Map<AtomId, A::V>, b: Map<AtomId, A::V>, c: Map<AtomId, A::V>, k: AtomId) -> Option<Option<A::V>> {
    match merge_entries::<A>(entry(a, k), entry(b, k)) {
        Some(ab) => merge_entries::<A>(ab, entry(c, k)),
        None => None,
    }
}

/// The entry of `k` after merging right to left; none when refused.
pub open spec fn column_right<A: MergeState>(a: Map<AtomId, A::V>, b: Map<AtomId, A::V>, c: Map<AtomId, A::V>, k: AtomId) -> Option<Option<A::V>> {
    match merge_entries::<A>(entry(b, k), entry(c, k)) {
        Some(bc) => merge_entries::<A>(entry(a, k), bc),
        None => None,
    }
}

/// An atom-map merge is the entry-wise merge.
pub proof fn lemma_merge_atom_maps_entries<A: MergeState>(a: Map<AtomId, A::V>, b: Map<AtomId, A::V>)
    ensures
        merge_atom_maps::<A>(a, b) is Some <==> forall|k: AtomId| #[trigger] merge_entries::<A>(entry(a, k), entry(b, k)) is Some,
        merge_atom_maps::<A>(a, b) matches Some(m) ==> forall|k: AtomId| #[trigger] entry(m, k) == merge_entries::<A>(entry(a, k), entry(b, k))->Some_0,
{
    if merge_atom_maps::<A>(a, b) is Some {
        assert forall|k: AtomId| #[trigger] merge_entries::<A>(entry(a, k), entry(b, k)) is Some by {
            assert(!atom_merge_fails::<A>(a, b, k));
        }
    } else {
        let k = choose|k: AtomId| atom_merge_fails::<A>(a, b, k);
        assert(merge_entries::<A>(entry(a, k), entry(b, k)) is None);
    }
}

/// Maps with the same entries are equal.
pub proof fn lemma_entries_equal<V>(m1: Map<AtomId, V>, m2: Map<AtomId, V>)
    requires
        forall|k: AtomId| #[trigger] entry(m1, k) == entry(m2, k),
    ensures
        m1 == m2,
{
    assert forall|k: AtomId| m1.contains_key(k) == m2.contains_key(k) by {
        assert(entry(m1, k) == entry(m2, k));
    }
    assert forall|k: AtomId| m1.contains_key(k) implies m1[k] == m2[k] by {
        assert(entry(m1, k) == entry(m2, k));
    }
    assert(m1 =~= m2);
}

/// Grouping does not change an entry-wise merge of three entries.
pub proof fn lemma_merge_entries_associative<A: MergeState>(x: Option<A::V>, y: Option<A::V>, z: Option<A::V>)
    requires
        merge_associates::<A>(),
    ensures
        (match merge_entries::<A>(x, y) {
            Some(xy) => merge_entries::<A>(xy, z),
            None => None,
        }) == (match merge_entries::<A>(y, z) {
            Some(yz) => merge_entries::<A>(x, yz),
            None => None,
        }),
{
    if x is Some && y is Some && z is Some {
        assert(merge_left::<A>(x->Some_0, y->Some_0, z->Some_0) == merge_right::<A>(x->Some_0, y->Some_0, z->Some_0));
    }
}

/// Merging three atom maps left to right, as entries.
pub proof fn lemma_merge_left_entries<A: MergeState>(a: Map<AtomId, A::V>, b: Map<AtomId, A::V>, c: Map<AtomId, A::V>)
    ensures
        merge_left::<AtomMap<A>>(a, b, c) is Some <==> forall|k: AtomId| #[trigger] column_left::<A>(a, b, c, k) is Some,
        merge_left::<AtomMap<A>>(a, b, c) matches Some(m) ==> forall|k: AtomId| #[trigger] entry(m, k) == column_left::<A>(a, b, c, k)->Some_0,
{
    lemma_merge_atom_maps_entries::<A>(a, b);
    match merge_atom_maps::<A>(a, b) {
        Some(ab) => {
            lemma_merge_atom_maps_entries::<A>(ab, c);
            assert forall|k: AtomId| #[trigger] column_left::<A>(a, b, c, k) == merge_entries::<A>(entry(ab, k), entry(c, k)) by {
                assert(merge_entries::<A>(entry(a, k), entry(b, k)) is Some);
                assert(entry(ab, k) == merge_entries::<A>(entry(a, k), entry(b, k))->Some_0);
            }
            assert(merge_left::<AtomMap<A>>(a, b, c) == merge_atom_maps::<A>(ab, c));
            if merge_atom_maps::<A>(ab, c) is Some {
                assert forall|k: AtomId| #[trigger] column_left::<A>(a, b, c, k) is Some by {
                    assert(merge_entries::<A>(entry(ab, k), entry(c, k)) is Some);
                }
            } else {
                let k = choose|k: AtomId| !(#[trigger] merge_entries::<A>(entry(ab, k), entry(c, k)) is Some);
                assert(!(column_left::<A>(a, b, c, k) is Some));
            }
        },
        None => {
            let k = choose|k: AtomId| !(#[trigger] merge_entries::<A>(entry(a, k), entry(b, k)) is Some);
            assert(column_left::<A>(a, b, c, k) is None);
        },
    }
}

/// Merging three atom maps right to left, as entries.
pub proof fn lemma_merge_right_entries<A: MergeState>(a: Map<AtomId, A::V>, b: Map<AtomId, A::V>, c: Map<AtomId, A::V>)
    ensures
        merge_right::<AtomMap<A>>(a, b, c) is Some <==> forall|k: AtomId| #[trigger] column_right::<A>(a, b, c, k) is Some,
        merge_right::<AtomMap<A>>(a, b, c) matches Some(m) ==> forall|k: AtomId| #[trigger] entry(m, k) == column_right::<A>(a, b, c, k)->Some_0,
{
    lemma_merge_atom_maps_entries::<A>(b, c);
    match merge_atom_maps::<A>(b, c) {
        Some(bc) => {
            lemma_merge_atom_maps_entries::<A>(a, bc);
            assert forall|k: AtomId| #[trigger] column_right::<A>(a, b, c, k) == merge_entries::<A>(entry(a, k), entry(bc, k)) by {
                assert(merge_entries::<A>(entry(b, k), entry(c, k)) is Some);
                assert(entry(bc, k) == merge_entries::<A>(entry(b, k), entry(c, k))->Some_0);
            }
            assert(merge_right::<AtomMap<A>>(a, b, c) == merge_atom_maps::<A>(a, bc));
            if merge_atom_maps::<A>(a, bc) is Some {
                assert forall|k: AtomId| #[trigger] column_right::<A>(a, b, c, k) is Some by {
                    assert(merge_entries::<A>(entry(a, k), entry(bc, k)) is Some);
                }
            } else {
                let k = choose|k: AtomId| !(#[trigger] merge_entries::<A>(entry(a, k), entry(bc, k)) is Some);
                assert(!(column_right::<A>(a, b, c, k) is Some));
            }
        },
        None => {
            let k = choose|k: AtomId| !(#[trigger] merge_entries::<A>(entry(b, k), entry(c, k)) is Some);
            assert(column_right::<A>(a, b, c, k) is None);
        },
    }
}

/// Atom maps inherit the merge laws of their atoms.
pub proof fn lemma_atom_map_merge_laws<A: MergeState>()
    requires
        merge_commutes::<A>(),
        merge_idempotent::<A>(),
        merge_associates::<A>(),
    ensures
        merge_commutes::<AtomMap<A>>(),
        merge_idempotent::<AtomMap<A>>(),
        merge_associates::<AtomMap<A>>(),
{
    assert forall|a: Map<AtomId, A::V>, b: Map<AtomId, A::V>| #[trigger] AtomMap::<A>::merge_spec(a, b) == AtomMap::<A>::merge_spec(b, a) by {
        lemma_merge_atom_maps_entries::<A>(a, b);
        lemma_merge_atom_maps_entries::<A>(b, a);
        assert forall|k: AtomId| #[trigger] merge_entries::<A>(entry(a, k), entry(b, k)) == merge_entries::<A>(entry(b, k), entry(a, k)) by {
            if a.contains_key(k) && b.contains_key(k) {
                assert(A::merge_spec(a[k], b[k]) == A::merge_spec(b[k], a[k]));
            }
        }
        if merge_atom_maps::<A>(a, b) is Some {
            assert forall|k: AtomId| #[trigger] merge_entries::<A>(entry(b, k), entry(a, k)) is Some by {
                assert(merge_entries::<A>(entry(a, k), entry(b, k)) is Some);
            }
            assert(merge_atom_maps::<A>(b, a) is Some);
            let m1 = merge_atom_maps::<A>(a, b)->Some_0;
            let m2 = merge_atom_maps::<A>(b, a)->Some_0;
            assert forall|k: AtomId| #[trigger] entry(m1, k) == entry(m2, k) by {
                assert(entry(m1, k) == merge_entries::<A>(entry(a, k), entry(b, k))->Some_0);
                assert(entry(m2, k) == merge_entries::<A>(entry(b, k), entry(a, k))->Some_0);
            }
            lemma_entries_equal(m1, m2);
        } else {
            let k = choose|k: AtomId| !(#[trigger] merge_entries::<A>(entry(a, k), entry(b, k)) is Some);
            assert(!(merge_entries::<A>(entry(b, k), entry(a, k)) is Some));
        }
    }
    assert forall|a: Map<AtomId, A::V>| #[trigger] AtomMap::<A>::merge_spec(a, a) == Some(a) by {
        lemma_merge_atom_maps_entries::<A>(a, a);
        assert forall|k: AtomId| #[trigger] merge_entries::<A>(entry(a, k), entry(a, k)) == Some(entry(a, k)) by {
            if a.contains_key(k) {
                assert(A::merge_spec(a[k], a[k]) == Some(a[k]));
            }
        }
        assert forall|k: AtomId| #[trigger] merge_entries::<A>(entry(a, k), entry(a, k)) is Some by {
            assert(merge_entries::<A>(entry(a, k), entry(a, k)) == Some(entry(a, k)));
        }
        assert(merge_atom_maps::<A>(a, a) is Some);
        let m = merge_atom_maps::<A>(a, a)->Some_0;
        assert forall|k: AtomId| #[trigger] entry(m, k) == entry(a, k) by {
            assert(entry(m, k) == merge_entries::<A>(entry(a, k), entry(a, k))->Some_0);
            assert(merge_entries::<A>(entry(a, k), entry(a, k)) == Some(entry(a, k)));
        }
        lemma_entries_equal(m, a);
    }
    assert forall|a: Map<AtomId, A::V>, b: Map<AtomId, A::V>, c: Map<AtomId, A::V>| #[trigger] merge_left::<AtomMap<A>>(a, b, c) == merge_right::<AtomMap<A>>(a, b, c) by {
        lemma_merge_left_entries::<A>(a, b, c);
        lemma_merge_right_entries::<A>(a, b, c);
        assert forall|k: AtomId| #[trigger] column_left::<A>(a, b, c, k) == column_right::<A>(a, b, c, k) by {
            lemma_merge_entries_associative::<A>(entry(a, k), entry(b, k), entry(c, k));
        }
        if merge_left::<AtomMap<A>>(a, b, c) is Some {
            assert forall|k: AtomId| #[trigger] column_right::<A>(a, b, c, k) is Some by {
                assert(column_left::<A>(a, b, c, k) is Some);
            }
            assert(merge_right::<AtomMap<A>>(a, b, c) is Some);
            let m1 = merge_left::<AtomMap<A>>(a, b, c)->Some_0;
            let m2 = merge_right::<AtomMap<A>>(a, b, c)->Some_0;
            assert forall|k: AtomId| #[trigger] entry(m1, k) == entry(m2, k) by {
                assert(entry(m1, k) == column_left::<A>(a, b, c, k)->Some_0);
                assert(entry(m2, k) == column_right::<A>(a, b, c, k)->Some_0);
            }
            lemma_entries_equal(m1, m2);
        } else {
            let k = choose|k: AtomId| !(#[trigger] column_left::<A>(a, b, c, k) is Some);
            assert(!(column_right::<A>(a, b, c, k) is Some));
        }
    }
}

/// Continua inherit the merge laws of their atoms.
pub proof fn lemma_continuum_merge_laws<A: MergeState>()
    requires
        merge_commutes::<A>(),
        merge_idempotent::<A>(),
        merge_associates::<A>(),
    ensures
        merge_commutes::<ContinuumState<A>>(),
        merge_idempotent::<ContinuumState<A>>(),
        merge_associates::<ContinuumState<A>>(),
{
    lemma_atom_map_merge_laws::<A>();
    assert forall|a: ContinuumModel<A::V>, b: ContinuumModel<A::V>| #[trigger] ContinuumState::<A>::merge_spec(a, b) == ContinuumState::<A>::merge_spec(b, a) by {
        assert(AtomMap::<A>::merge_spec(a.atoms, b.atoms) == AtomMap::<A>::merge_spec(b.atoms, a.atoms));
    }
    assert forall|a: ContinuumModel<A::V>| #[trigger] ContinuumState::<A>::merge_spec(a, a) == Some(a) by {
        assert(AtomMap::<A>::merge_spec(a.atoms, a.atoms) == Some(a.atoms));
    }
    assert forall|a: ContinuumModel<A::V>, b: ContinuumModel<A::V>, c: ContinuumModel<A::V>| #[trigger] merge_left::<ContinuumState<A>>(a, b, c) == merge_right::<ContinuumState<A>>(a, b, c) by {
        assert(merge_left::<AtomMap<A>>(a.atoms, b.atoms, c.atoms) == merge_right::<AtomMap<A>>(a.atoms, b.atoms, c.atoms));
    }
}

/// Continua of scalar registers satisfy the merge laws.
pub proof fn lemma_scalar_continuum_merge_laws()
    ensures
        merge_commutes::<ContinuumState<ScalarRegister>>(),
        merge_idempotent::<ContinuumState<ScalarRegister>>(),
        merge_associates::<ContinuumState<ScalarRegister>>(),
{
    lemma_scalar_merge_laws();
    lemma_continuum_merge_laws::<ScalarRegister>();
}

impl<A: View> Default for AtomMap<A> {
    fn default() -> (m: Self)
        ensures
            m@ == Map::<AtomId, A::V>::empty(),
    {
        AtomMap::new()
    }
}

impl<A: MergeState> Clone for AtomMap<A> {
    fn clone(&self) -> (m: Self)
        ensures
            m@ == self@,
    {
        self.copy_state()
    }
}

impl<A: MergeState> Clone for ContinuumState<A> {
    fn clone(&self) -> (s: Self)
        ensures
            s@ == self@,
    {
        self.copy_state()
    }
}

} // verus!
