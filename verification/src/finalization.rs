//! Finalization and exposure bookkeeping for local causal revisions.
//!
//! A local revision is first registered as owned by this replica, then frozen
//! (finalized), and only then may it cross the transport handoff boundary.
//! Exposure begins at handoff: an acknowledgement can be lost after delivery,
//! so no acknowledgement is modelled.
use vstd::prelude::*;

use crate::error::CoreError;
use crate::graph::{closure, Graph, RevisionModel};
use crate::id::RevisionId;
use crate::idset::{rid_lt, sorted_ids, RevisionSet};
use crate::order::compare_bytes;
use crate::scalar::{
    copy_revisions, entries_map, find_revision, has_id, insert_sorted, lemma_entries_map_at,
    lemma_entries_map_basic, lemma_entries_map_update, lemma_sorted_distinct, sorted_revs,
    ScalarRegister, ScalarRevision,
};

verus! {

/// Immutable portable statement frozen before authentication and transport.
#[derive(Clone, Debug, PartialEq, Eq)]
pub struct FinalizedStatement {
    pub revision_id: RevisionId,
    pub value: Vec<u8>,
    pub parents: RevisionSet,
}

impl View for FinalizedStatement {
    type V = RevisionModel;

    open spec fn view(&self) -> RevisionModel {
        RevisionModel { id: self.revision_id, value: self.value@, parents: self.parents@ }
    }
}

impl FinalizedStatement {
    /// The frozen form of a causal revision.
    pub fn from_revision(revision: &ScalarRevision) -> (s: Self)
        ensures
            s@ == revision@,
    {
        let value = revision.value.clone();
        assert(value@ =~= revision.value@);
        FinalizedStatement {
            revision_id: revision.id,
            value,
            parents: revision.parents.duplicate(),
        }
    }

    /// A copy of the same statement.
    pub fn duplicate(&self) -> (s: Self)
        ensures
            s@ == self@,
    {
        let value = self.value.clone();
        assert(value@ =~= self.value@);
        FinalizedStatement {
            revision_id: self.revision_id,
            value,
            parents: self.parents.duplicate(),
        }
    }

    /// Whether two statements are identical.
    pub fn same_statement(&self, other: &FinalizedStatement) -> (b: bool)
        ensures
            b == (self@ == other@),
    {
        if !self.revision_id.same(&other.revision_id) {
            return false;
        }
        if compare_bytes(self.value.as_slice(), other.value.as_slice()) != 0 {
            return false;
        }
        self.parents.same(&other.parents)
    }

    fn to_revision(&self) -> (r: ScalarRevision)
        ensures
            r@ == self@,
    {
        let value = self.value.clone();
        assert(value@ =~= self.value@);
        ScalarRevision::new(self.revision_id, value, self.parents.duplicate())
    }
}

/// Finalized statements keyed by their revision identity, held in canonical
/// identity order.
#[derive(Debug, PartialEq, Eq)]
pub struct FinalizedMap {
    entries: Vec<ScalarRevision>,
}

impl View for FinalizedMap {
    type V = Graph;

    closed spec fn view(&self) -> Graph {
        entries_map(self.entries@)
    }
}

impl FinalizedMap {
    #[verifier::type_invariant]
    spec fn inv(self) -> bool {
        sorted_revs(self.entries@)
    }

    /// The frozen statements in canonical identity order.
    pub closed spec fn entries(self) -> Seq<ScalarRevision> {
        self.entries@
    }

    /// The stored statements in canonical identity order.
    pub fn entry_list(&self) -> (r: &Vec<ScalarRevision>)
        ensures
            r@ == self.entries(),
            sorted_revs(r@),
            entries_map(r@) == self@,
    {
        proof {
            use_type_invariant(self);
        }
        &self.entries
    }

    pub fn new() -> (m: Self)
        ensures
            m@ == Map::<RevisionId, RevisionModel>::empty(),
    {
        let entries: Vec<ScalarRevision> = Vec::new();
        assert(entries_map(entries@) =~= Map::<RevisionId, RevisionModel>::empty());
        FinalizedMap { entries }
    }

    pub fn len(&self) -> (n: usize)
        ensures
            n == self@.dom().len(),
            self@.dom().finite(),
    {
        proof {
            use_type_invariant(self);
            lemma_entries_map_basic(self.entries@);
        }
        self.entries.len()
    }

    pub fn is_empty(&self) -> (b: bool)
        ensures
            b == (self@ == Map::<RevisionId, RevisionModel>::empty()),
    {
        proof {
            use_type_invariant(self);
            if self.entries@.len() > 0 {
                lemma_entries_map_at(self.entries@, 0);
            } else {
                assert(self@ =~= Map::<RevisionId, RevisionModel>::empty());
            }
        }
        self.entries.len() == 0
    }

    pub fn contains_key(&self, revision_id: &RevisionId) -> (b: bool)
        ensures
            b == self@.contains_key(*revision_id),
    {
        find_revision(&self.entries, revision_id).is_some()
    }

    /// A copy of the statement frozen under `revision_id`, if any.
    pub fn get(&self, revision_id: &RevisionId) -> (r: Option<FinalizedStatement>)
        ensures
            r is Some == self@.contains_key(*revision_id),
            r matches Some(s) ==> s@ == self@[*revision_id] && s.revision_id == *revision_id,
    {
        proof {
            use_type_invariant(self);
        }
        match find_revision(&self.entries, revision_id) {
            Some(i) => {
                proof {
                    lemma_entries_map_at(self.entries@, i as int);
                }
                Some(FinalizedStatement::from_revision(&self.entries[i]))
            },
            None => None,
        }
    }

    /// Stores a statement under its own identity, replacing any statement
    /// stored under that identity before.
    pub fn insert(&mut self, statement: FinalizedStatement)
        ensures
            final(self)@ == old(self)@.insert(statement.revision_id, statement@),
    {
        proof {
            use_type_invariant(&*self);
        }
        let r = statement.to_revision();
        let mut entries: Vec<ScalarRevision> = Vec::new();
        std::mem::swap(&mut entries, &mut self.entries);
        match find_revision(&entries, &statement.revision_id) {
            Some(i) => {
                proof {
                    lemma_entries_map_update(entries@, i as int, r);
                }
                entries.set(i, r);
            },
            None => {
                insert_sorted(&mut entries, r);
            },
        }
        self.entries = entries;
    }

    /// The identities under which statements are frozen.
    pub fn keys(&self) -> (s: RevisionSet)
        ensures
            s@ == self@.dom(),
    {
        proof {
            use_type_invariant(self);
        }
        let mut s = RevisionSet::new();
        let mut i: usize = 0;
        while i < self.entries.len()
            invariant
                i <= self.entries@.len(),
                s@ == Set::new(|k: RevisionId| exists|j: int| 0 <= j < i && #[trigger] self.entries@[j].id == k),
            decreases self.entries@.len() - i,
        {
            s.insert(self.entries[i].id);
            proof {
                assert(s@ =~= Set::new(|k: RevisionId| exists|j: int| 0 <= j < i + 1 && #[trigger] self.entries@[j].id == k)) by {
                    assert(self.entries@[i as int].id == self.entries@[i as int].id);
                }
            }
            i = i + 1;
        }
        assert(s@ =~= self@.dom());
        s
    }

    /// The frozen statements in canonical identity order.
    pub fn statements(&self) -> (v: Vec<FinalizedStatement>)
        ensures
            v@.len() == self@.dom().len(),
            forall|i: int, j: int| 0 <= i < j < v@.len() ==> rid_lt(#[trigger] v@[i].revision_id, #[trigger] v@[j].revision_id),
            forall|i: int| 0 <= i < v@.len() ==> self@.contains_key(#[trigger] v@[i].revision_id) && self@[v@[i].revision_id] == v@[i]@,
            forall|k: RevisionId| self@.contains_key(k) ==> exists|i: int| 0 <= i < v@.len() && #[trigger] v@[i].revision_id == k,
    {
        proof {
            use_type_invariant(self);
            lemma_entries_map_basic(self.entries@);
        }
        let mut v: Vec<FinalizedStatement> = Vec::new();
        let mut i: usize = 0;
        while i < self.entries.len()
            invariant
                i <= self.entries@.len(),
                sorted_revs(self.entries@),
                v@.len() == i,
                forall|j: int| 0 <= j < i ==> (#[trigger] v@[j])@ == self.entries@[j]@,
            decreases self.entries@.len() - i,
        {
            v.push(FinalizedStatement::from_revision(&self.entries[i]));
            i = i + 1;
        }
        proof {
            assert forall|i: int| 0 <= i < v@.len() implies self@.contains_key(#[trigger] v@[i].revision_id) && self@[v@[i].revision_id] == v@[i]@ by {
                lemma_entries_map_at(self.entries@, i);
            }
            assert forall|k: RevisionId| self@.contains_key(k) implies exists|i: int| 0 <= i < v@.len() && #[trigger] v@[i].revision_id == k by {
                let j = choose|j: int| 0 <= j < self.entries@.len() && #[trigger] self.entries@[j].id == k;
                assert(v@[j].revision_id == k);
            }
            assert forall|i: int, j: int| 0 <= i < j < v@.len() implies rid_lt(#[trigger] v@[i].revision_id, #[trigger] v@[j].revision_id) by {
                assert(v@[i].revision_id == self.entries@[i].id);
                assert(v@[j].revision_id == self.entries@[j].id);
            }
        }
        v
    }

    /// Checks every frozen statement against a causal state, in canonical
    /// identity order.
    fn check_against(&self, causal: &ScalarRegister) -> (r: Result<(), CoreError>)
        ensures
            r is Ok <==> finalized_intact(self@, causal@),
            r matches Err(e) ==> is_first_fault_error(self@, causal@, e),
    {
        proof {
            use_type_invariant(self);
        }
        let n = self.entries.len();
        let mut i: usize = 0;
        while i < n
            invariant
                n == self.entries@.len(),
                i <= n,
                sorted_revs(self.entries@),
                forall|j: int| 0 <= j < i ==> !statement_fault(self@, causal@, #[trigger] self.entries@[j].id),
            decreases n - i,
        {
            let s = &self.entries[i];
            proof {
                lemma_entries_map_at(self.entries@, i as int);
            }
            let fault = match causal.revision(s.id) {
                None => Some(CoreError::UnknownRevision { revision_id: s.id }),
                Some(rev) => {
                    if rev.same_statement(s) {
                        None
                    } else {
                        Some(CoreError::FinalizedStatementConflict { revision_id: s.id })
                    }
                },
            };
            if let Some(e) = fault {
                proof {
                    let k = self.entries@[i as int].id;
                    assert(statement_fault(self@, causal@, k));
                    assert forall|k2: RevisionId| #[trigger] statement_fault(self@, causal@, k2) implies k2 == k || rid_lt(k, k2) by {
                        let j = choose|j: int| 0 <= j < self.entries@.len() && #[trigger] self.entries@[j].id == k2;
                        if j > i {
                            assert(rid_lt(self.entries@[i as int].id, self.entries@[j].id));
                        }
                    }
                }
                return Err(e);
            }
            i = i + 1;
        }
        proof {
            assert forall|k: RevisionId| !#[trigger] statement_fault(self@, causal@, k) by {
                if statement_fault(self@, causal@, k) {
                    let j = choose|j: int| 0 <= j < n && #[trigger] self.entries@[j].id == k;
                }
            }
        }
        Ok(())
    }

    /// A copy of the same map.
    pub fn duplicate(&self) -> (m: Self)
        ensures
            m@ == self@,
    {
        proof {
            use_type_invariant(self);
        }
        FinalizedMap { entries: copy_revisions(&self.entries) }
    }
}

impl Clone for FinalizedMap {
    fn clone(&self) -> (m: Self)
        ensures
            m@ == self@,
    {
        self.duplicate()
    }
}

/// Abstract content of a finalization ledger or of its snapshot.
pub ghost struct LedgerModel {
    /// Causal revisions created by this replica.
    pub local: Set<RevisionId>,
    /// Frozen local statements by identity.
    pub finalized: Graph,
    /// Local identities that may already be externally observable.
    pub exposed: Set<RevisionId>,
    /// Local identities handed to transport directly.
    pub handed_off: Set<RevisionId>,
}

/// What every ledger keeps: exposure and finalization only concern local
/// revisions, and what was handed off directly is exposed.
pub open spec fn ledger_consistent(m: LedgerModel) -> bool {
    &&& m.exposed.subset_of(m.local)
    &&& m.handed_off.subset_of(m.exposed)
    &&& m.finalized.dom().subset_of(m.local)
}

/// Exposure is permanent: nothing leaves the local, exposed or handed-off
/// sets, and no frozen statement is removed or rewritten.
pub open spec fn ledger_grows(before: LedgerModel, after: LedgerModel) -> bool {
    &&& before.local.subset_of(after.local)
    &&& before.exposed.subset_of(after.exposed)
    &&& before.handed_off.subset_of(after.handed_off)
    &&& before.finalized.submap_of(after.finalized)
}

/// Over any sequence of bookkeeping calls the ledger only grows.
pub proof fn lemma_ledger_grows_transitive(a: LedgerModel, b: LedgerModel, c: LedgerModel)
    requires
        ledger_grows(a, b),
        ledger_grows(b, c),
    ensures
        ledger_grows(a, c),
{
    vstd::map_lib::lemma_submap_of_trans(a.finalized, b.finalized, c.finalized);
}

/// `k` is frozen, but the causal state no longer holds that exact statement.
pub open spec fn statement_fault(finalized: Graph, causal: Graph, k: RevisionId) -> bool {
    finalized.contains_key(k) && (!causal.contains_key(k) || causal[k] != finalized[k])
}

/// Every frozen statement is still present, unchanged, in the causal state.
pub open spec fn finalized_intact(finalized: Graph, causal: Graph) -> bool {
    forall|k: RevisionId| !#[trigger] statement_fault(finalized, causal, k)
}

/// The error that reports a faulty frozen statement.
pub open spec fn fault_error(causal: Graph, k: RevisionId) -> CoreError {
    if causal.contains_key(k) {
        CoreError::FinalizedStatementConflict { revision_id: k }
    } else {
        CoreError::UnknownRevision { revision_id: k }
    }
}

/// `e` reports the canonically smallest faulty frozen statement.
pub open spec fn is_first_fault_error(finalized: Graph, causal: Graph, e: CoreError) -> bool {
    exists|k: RevisionId| #[trigger] statement_fault(finalized, causal, k) && e == fault_error(causal, k)
        && forall|k2: RevisionId| #[trigger] statement_fault(finalized, causal, k2) ==> k2 == k || rid_lt(k, k2)
}

/// Local revisions in the causal dependency closure of a handoff.
pub open spec fn handoff_exposure(m: LedgerModel, causal: Graph, direct: Set<RevisionId>) -> Set<RevisionId> {
    closure(causal, direct).intersect(m.local)
}

/// `k` is the canonically smallest local dependency of a handoff that is not
/// yet finalized.
pub open spec fn first_unfinalized(m: LedgerModel, causal: Graph, direct: Set<RevisionId>, k: RevisionId) -> bool {
    &&& handoff_exposure(m, causal, direct).contains(k)
    &&& !m.finalized.contains_key(k)
    &&& forall|k2: RevisionId| #[trigger] handoff_exposure(m, causal, direct).contains(k2) && !m.finalized.contains_key(k2) ==> k2 == k || rid_lt(k, k2)
}

/// What registering a local revision does: refused for an unknown
/// identity, otherwise the identity joins the local set.
pub open spec fn register_outcome(
    before: LedgerModel,
    causal: Graph,
    revision_id: RevisionId,
    r: Result<(), CoreError>,
    after: LedgerModel,
) -> bool {
    if causal.contains_key(revision_id) {
        r is Ok && after == (LedgerModel { local: before.local.insert(revision_id), ..before })
    } else {
        r == Err::<(), CoreError>(CoreError::UnknownRevision { revision_id }) && after == before
    }
}

/// What finalizing does: only a known local revision is frozen; a frozen
/// statement that the causal state rewrote is refused; freezing the same
/// statement again returns it and changes nothing.
pub open spec fn finalize_outcome(
    before: LedgerModel,
    causal: Graph,
    revision_id: RevisionId,
    r: Result<FinalizedStatement, CoreError>,
    after: LedgerModel,
) -> bool {
    if !before.local.contains(revision_id) {
        r == Err::<FinalizedStatement, CoreError>(CoreError::UnknownLocalRevision { revision_id })
            && after == before
    } else if !causal.contains_key(revision_id) {
        r == Err::<FinalizedStatement, CoreError>(CoreError::UnknownRevision { revision_id }) && after
            == before
    } else if before.finalized.contains_key(revision_id) && before.finalized[revision_id]
        != causal[revision_id] {
        r == Err::<FinalizedStatement, CoreError>(
            CoreError::FinalizedStatementConflict { revision_id },
        ) && after == before
    } else {
        &&& r matches Ok(s) && s@ == causal[revision_id]
        &&& after == (LedgerModel {
            finalized: before.finalized.insert(revision_id, causal[revision_id]),
            ..before
        })
    }
}

/// Finalization is idempotent and keeps the revision's identity: once a
/// revision is finalized, finalizing it again against the same causal state
/// returns the same statement and changes nothing.
pub proof fn lemma_finalize_idempotent(
    before: LedgerModel,
    causal: Graph,
    revision_id: RevisionId,
    first: Result<FinalizedStatement, CoreError>,
    mid: LedgerModel,
    second: Result<FinalizedStatement, CoreError>,
    after: LedgerModel,
)
    requires
        finalize_outcome(before, causal, revision_id, first, mid),
        first is Ok,
        finalize_outcome(mid, causal, revision_id, second, after),
    ensures
        second matches Ok(s) && s@ == first->Ok_0@,
        first->Ok_0@ == causal[revision_id],
        after == mid,
{
    assert(mid.finalized.insert(revision_id, causal[revision_id]) =~= mid.finalized);
}

/// What handing off `direct` does. The causal state is first checked against
/// every frozen statement, then every handed identity must be known, then
/// every local dependency must be finalized; only then do the local
/// dependencies become exposed and the handed local identities recorded.
pub open spec fn handoff_outcome(
    before: LedgerModel,
    causal: Graph,
    direct: Seq<RevisionId>,
    r: Result<(), CoreError>,
    after: LedgerModel,
) -> bool {
    if !finalized_intact(before.finalized, causal) {
        (r matches Err(e) && is_first_fault_error(before.finalized, causal, e)) && after == before
    } else if !direct.to_set().subset_of(causal.dom()) {
        &&& after == before
        &&& r matches Err(e) && exists|x: RevisionId|
            e == (CoreError::UnknownRevision { revision_id: x }) && direct.contains(x)
                && !causal.contains_key(x) && forall|y: RevisionId| #[trigger]
                direct.contains(y) && !causal.contains_key(y) ==> y == x || rid_lt(y, x)
    } else if !handoff_exposure(before, causal, direct.to_set()).subset_of(before.finalized.dom()) {
        &&& after == before
        &&& r matches Err(e) && exists|k: RevisionId|
            first_unfinalized(before, causal, direct.to_set(), k)
                && e == (CoreError::HandoffRequiresFinalizedRevision { revision_id: k })
    } else {
        r is Ok && after == (LedgerModel {
            exposed: before.exposed.union(handoff_exposure(before, causal, direct.to_set())),
            handed_off: before.handed_off.union(direct.to_set().intersect(before.local)),
            ..before
        })
    }
}

/// An image that restore accepts against `causal`.
pub open spec fn ledger_restorable(m: LedgerModel, causal: Graph) -> bool {
    &&& ledger_consistent(m)
    &&& m.local.subset_of(causal.dom())
    &&& finalized_intact(m.finalized, causal)
}

/// The error with which restore refuses an image.
pub open spec fn ledger_restore_refusal(m: LedgerModel, causal: Graph, e: CoreError) -> bool {
    if !ledger_consistent(m) {
        e == CoreError::InvalidFinalizationSnapshot
    } else if !m.local.subset_of(causal.dom()) {
        exists|k: RevisionId| e == (CoreError::UnknownRevision { revision_id: k })
            && m.local.contains(k) && !causal.contains_key(k) && forall|k2: RevisionId| #[trigger]
            m.local.contains(k2) && !causal.contains_key(k2) ==> k2 == k || rid_lt(k, k2)
    } else {
        is_first_fault_error(m.finalized, causal, e)
    }
}

/// Crash-recovery image of the finalization bookkeeping.
#[derive(Clone, Debug, PartialEq, Eq)]
pub struct FinalizationSnapshot {
    pub local_revision_ids: RevisionSet,
    pub finalized: FinalizedMap,
    pub exposed_local_ids: RevisionSet,
    pub handed_off_local_ids: RevisionSet,
}

impl View for FinalizationSnapshot {
    type V = LedgerModel;

    open spec fn view(&self) -> LedgerModel {
        LedgerModel {
            local: self.local_revision_ids@,
            finalized: self.finalized@,
            exposed: self.exposed_local_ids@,
            handed_off: self.handed_off_local_ids@,
        }
    }
}

impl FinalizationSnapshot {
    /// A copy of the same image.
    pub fn duplicate(&self) -> (s: Self)
        ensures
            s@ == self@,
    {
        FinalizationSnapshot {
            local_revision_ids: self.local_revision_ids.duplicate(),
            finalized: self.finalized.duplicate(),
            exposed_local_ids: self.exposed_local_ids.duplicate(),
            handed_off_local_ids: self.handed_off_local_ids.duplicate(),
        }
    }
}

/// Tracks which local causal identities are still private, which statements
/// are frozen, and which identities may already be externally observable.
#[derive(Debug, PartialEq, Eq)]
pub struct FinalizationLedger {
    local_revision_ids: RevisionSet,
    finalized: FinalizedMap,
    exposed_local_ids: RevisionSet,
    handed_off_local_ids: RevisionSet,
}

impl View for FinalizationLedger {
    type V = LedgerModel;

    closed spec fn view(&self) -> LedgerModel {
        LedgerModel {
            local: self.local_revision_ids@,
            finalized: self.finalized@,
            exposed: self.exposed_local_ids@,
            handed_off: self.handed_off_local_ids@,
        }
    }
}

impl FinalizationLedger {
    /// Every ledger is consistent.
    #[verifier::type_invariant]
    pub open spec fn consistent(self) -> bool {
        ledger_consistent(self@)
    }

    pub fn new() -> (l: Self)
        ensures
            l@ == (LedgerModel {
                local: Set::empty(),
                finalized: Map::empty(),
                exposed: Set::empty(),
                handed_off: Set::empty(),
            }),
            ledger_consistent(l@),
    {
        FinalizationLedger {
            local_revision_ids: RevisionSet::new(),
            finalized: FinalizedMap::new(),
            exposed_local_ids: RevisionSet::new(),
            handed_off_local_ids: RevisionSet::new(),
        }
    }

    pub fn local_revision_ids(&self) -> (r: &RevisionSet)
        ensures
            r@ == self@.local,
    {
        &self.local_revision_ids
    }

    /// The frozen statements; each is stored under its own identity.
    pub fn finalized(&self) -> (r: &FinalizedMap)
        ensures
            r@ == self@.finalized,
            crate::graph::keys_match(r@),
    {
        proof {
            use_type_invariant(&self.finalized);
            lemma_entries_map_basic(self.finalized.entries@);
        }
        &self.finalized
    }

    pub fn exposed_local_ids(&self) -> (r: &RevisionSet)
        ensures
            r@ == self@.exposed,
    {
        &self.exposed_local_ids
    }

    pub fn handed_off_local_ids(&self) -> (r: &RevisionSet)
        ensures
            r@ == self@.handed_off,
    {
        &self.handed_off_local_ids
    }

    /// Registers ownership of a causal revision created by this replica.
    pub fn register_local(&mut self, causal: &ScalarRegister, revision_id: RevisionId) -> (r: Result<(), CoreError>)
        ensures
            register_outcome(old(self)@, causal@, revision_id, r, final(self)@),
            ledger_consistent(final(self)@),
            ledger_grows(old(self)@, final(self)@),
    {
        proof {
            use_type_invariant(&*self);
        }
        if causal.revision(revision_id).is_none() {
            return Err(CoreError::UnknownRevision { revision_id });
        }
        let mut local = self.local_revision_ids.duplicate();
        local.insert(revision_id);
        self.local_revision_ids = local;
        Ok(())
    }

    /// Freezes one local causal statement. Repeating finalization of the same
    /// unchanged statement returns it again and changes nothing.
    pub fn finalize(&mut self, causal: &ScalarRegister, revision_id: RevisionId) -> (r: Result<FinalizedStatement, CoreError>)
        ensures
            finalize_outcome(old(self)@, causal@, revision_id, r, final(self)@),
            ledger_consistent(final(self)@),
            ledger_grows(old(self)@, final(self)@),
    {
        proof {
            use_type_invariant(&*self);
        }
        if !self.local_revision_ids.contains(&revision_id) {
            return Err(CoreError::UnknownLocalRevision { revision_id });
        }
        let revision = match causal.revision(revision_id) {
            Some(rev) => rev,
            None => {
                return Err(CoreError::UnknownRevision { revision_id });
            },
        };
        let statement = FinalizedStatement::from_revision(revision);
        match self.finalized.get(&revision_id) {
            Some(existing) => {
                if !existing.same_statement(&statement) {
                    return Err(CoreError::FinalizedStatementConflict { revision_id });
                }
                proof {
                    assert(self@.finalized.insert(revision_id, causal@[revision_id]) =~= self@.finalized);
                }
                Ok(existing)
            },
            None => {
                let mut finalized = self.finalized.duplicate();
                finalized.insert(statement.duplicate());
                self.finalized = finalized;
                Ok(statement)
            },
        }
    }

    /// Checks that no finalized statement has been removed or rewritten in
    /// the supplied causal state; the canonically smallest fault is reported.
    pub fn validate_against(&self, causal: &ScalarRegister) -> (r: Result<(), CoreError>)
        ensures
            r is Ok <==> finalized_intact(self@.finalized, causal@),
            r matches Err(e) ==> is_first_fault_error(self@.finalized, causal@, e),
    {
        self.finalized.check_against(causal)
    }

    /// Marks revisions as handed to an external transport.
    ///
    /// Every local revision in the causal dependency closure of the handed
    /// identities must already be finalized; those local identities become
    /// permanently exposed, and the handed local identities are recorded.
    pub fn handoff(&mut self, causal: &ScalarRegister, revision_ids: Vec<RevisionId>) -> (r: Result<(), CoreError>)
        ensures
            handoff_outcome(old(self)@, causal@, revision_ids@, r, final(self)@),
            ledger_consistent(final(self)@),
            ledger_grows(old(self)@, final(self)@),
    {
        proof {
            use_type_invariant(&*self);
        }
        let ghost ids = revision_ids@;
        self.validate_against(causal)?;
        let direct = RevisionSet::from_ids(revision_ids);
        let closure_ids = match causal.dependency_closure(&direct) {
            Ok(c) => c,
            Err(e) => {
                proof {
                    let x = choose|x: RevisionId| e == (CoreError::UnknownRevision { revision_id: x })
                        && direct@.contains(x) && !causal@.contains_key(x) && forall|y: RevisionId| #[trigger]
                        direct@.contains(y) && !causal@.contains_key(y) ==> y == x || rid_lt(y, x);
                    assert(ids.contains(x));
                    assert forall|y: RevisionId| #[trigger] ids.contains(y) && !causal@.contains_key(y) implies y == x || rid_lt(y, x) by {
                        assert(direct@.contains(y));
                    }
                }
                return Err(e);
            },
        };
        let ghost exposure_set = handoff_exposure(self@, causal@, ids.to_set());
        let cv = closure_ids.to_vec();
        let mut exposure = RevisionSet::new();
        let mut i: usize = 0;
        while i < cv.len()
            invariant
                i <= cv@.len(),
                sorted_ids(cv@),
                cv@.to_set() == closure(causal@, ids.to_set()),
                exposure_set == handoff_exposure(self@, causal@, ids.to_set()),
                ids == revision_ids@,
                self@ == old(self)@,
                ledger_consistent(self@),
                finalized_intact(self@.finalized, causal@),
                ids.to_set().subset_of(causal@.dom()),
                exposure@ == cv@.take(i as int).to_set().intersect(self@.local),
                forall|j: int| 0 <= j < i && self@.local.contains(#[trigger] cv@[j]) ==> self@.finalized.contains_key(cv@[j]),
            decreases cv@.len() - i,
        {
            let x = cv[i];
            if self.local_revision_ids.contains(&x) {
                if !self.finalized.contains_key(&x) {
                    proof {
                        assert(cv@.to_set().contains(x));
                        assert forall|k2: RevisionId| #[trigger] exposure_set.contains(k2) && !self@.finalized.contains_key(k2) implies k2 == x || rid_lt(x, k2) by {
                            assert(cv@.to_set().contains(k2));
                            assert(cv@.contains(k2));
                            let j = choose|j: int| 0 <= j < cv@.len() && cv@[j] == k2;
                            if j > i {
                                assert(rid_lt(cv@[i as int], cv@[j]));
                            }
                        }
                        assert(first_unfinalized(self@, causal@, ids.to_set(), x));
                    }
                    return Err(CoreError::HandoffRequiresFinalizedRevision { revision_id: x });
                }
                exposure.insert(x);
            }
            proof {
                assert(exposure@ =~= cv@.take(i as int + 1).to_set().intersect(self@.local)) by {
                    assert(cv@.take(i as int + 1) =~= cv@.take(i as int).push(x));
                    cv@.take(i as int).lemma_push_to_set_commute(x);
                }
            }
            i = i + 1;
        }
        proof {
            assert(cv@.take(cv@.len() as int) =~= cv@);
            assert(exposure@ =~= exposure_set);
            assert forall|k: RevisionId| exposure_set.contains(k) implies self@.finalized.contains_key(k) by {
                let j = choose|j: int| 0 <= j < cv@.len() && cv@[j] == k;
            }
        }
        let dv = direct.to_vec();
        let mut handed = RevisionSet::new();
        let mut i: usize = 0;
        while i < dv.len()
            invariant
                i <= dv@.len(),
                dv@.to_set() == ids.to_set(),
                handed@ == dv@.take(i as int).to_set().intersect(self@.local),
            decreases dv@.len() - i,
        {
            let x = dv[i];
            if self.local_revision_ids.contains(&x) {
                handed.insert(x);
            }
            proof {
                assert(handed@ =~= dv@.take(i as int + 1).to_set().intersect(self@.local)) by {
                    assert(dv@.take(i as int + 1) =~= dv@.take(i as int).push(x));
                    dv@.take(i as int).lemma_push_to_set_commute(x);
                }
            }
            i = i + 1;
        }
        proof {
            assert(dv@.take(dv@.len() as int) =~= dv@);
            assert(handed@ =~= ids.to_set().intersect(self@.local));
            assert(handed@.subset_of(exposure@)) by {
                assert forall|k: RevisionId| handed@.contains(k) implies exposure@.contains(k) by {
                    assert(closure(causal@, ids.to_set()).contains(k));
                }
            }
        }
        let mut exposed = self.exposed_local_ids.duplicate();
        exposed.extend_from(&exposure);
        self.exposed_local_ids = exposed;
        let mut handed_off = self.handed_off_local_ids.duplicate();
        handed_off.extend_from(&handed);
        self.handed_off_local_ids = handed_off;
        Ok(())
    }

    /// A crash-recovery image of the bookkeeping.
    pub fn snapshot(&self) -> (s: FinalizationSnapshot)
        ensures
            s@ == self@,
            ledger_consistent(s@),
    {
        proof {
            use_type_invariant(self);
        }
        FinalizationSnapshot {
            local_revision_ids: self.local_revision_ids.duplicate(),
            finalized: self.finalized.duplicate(),
            exposed_local_ids: self.exposed_local_ids.duplicate(),
            handed_off_local_ids: self.handed_off_local_ids.duplicate(),
        }
    }

    /// Rebuilds the bookkeeping from an image, checked against the causal
    /// state it belongs to.
    pub fn restore(snapshot: FinalizationSnapshot, causal: &ScalarRegister) -> (r: Result<Self, CoreError>)
        ensures
            r is Ok <==> ledger_restorable(snapshot@, causal@),
            r matches Ok(l) ==> l@ == snapshot@,
            r matches Err(e) ==> ledger_restore_refusal(snapshot@, causal@, e),
    {
        let consistent = snapshot.exposed_local_ids.is_subset_of(&snapshot.local_revision_ids)
            && snapshot.handed_off_local_ids.is_subset_of(&snapshot.exposed_local_ids)
            && snapshot.finalized.keys().is_subset_of(&snapshot.local_revision_ids);
        if !consistent {
            return Err(CoreError::InvalidFinalizationSnapshot);
        }
        let lv = snapshot.local_revision_ids.to_vec();
        let mut i: usize = 0;
        while i < lv.len()
            invariant
                i <= lv@.len(),
                sorted_ids(lv@),
                ledger_consistent(snapshot@),
                lv@.to_set() == snapshot@.local,
                forall|j: int| 0 <= j < i ==> causal@.contains_key(#[trigger] lv@[j]),
            decreases lv@.len() - i,
        {
            if causal.revision(lv[i]).is_none() {
                proof {
                    let k = lv@[i as int];
                    assert(lv@.to_set().contains(k));
                    assert forall|k2: RevisionId| #[trigger] snapshot@.local.contains(k2) && !causal@.contains_key(k2) implies k2 == k || rid_lt(k, k2) by {
                        let j = choose|j: int| 0 <= j < lv@.len() && lv@[j] == k2;
                        if j > i {
                            assert(rid_lt(lv@[i as int], lv@[j]));
                        }
                    }
                }
                return Err(CoreError::UnknownRevision { revision_id: lv[i] });
            }
            i = i + 1;
        }
        proof {
            assert forall|k: RevisionId| snapshot@.local.contains(k) implies causal@.dom().contains(k) by {
                let j = choose|j: int| 0 <= j < lv@.len() && lv@[j] == k;
            }
        }
        let ledger = FinalizationLedger {
            local_revision_ids: snapshot.local_revision_ids,
            finalized: snapshot.finalized,
            exposed_local_ids: snapshot.exposed_local_ids,
            handed_off_local_ids: snapshot.handed_off_local_ids,
        };
        ledger.validate_against(causal)?;
        Ok(ledger)
    }
}

impl Clone for FinalizationLedger {
    fn clone(&self) -> (l: Self)
        ensures
            l@ == self@,
    {
        proof {
            use_type_invariant(self);
        }
        FinalizationLedger {
            local_revision_ids: self.local_revision_ids.duplicate(),
            finalized: self.finalized.duplicate(),
            exposed_local_ids: self.exposed_local_ids.duplicate(),
            handed_off_local_ids: self.handed_off_local_ids.duplicate(),
        }
    }
}

} // verus!
