//! Local working state over one portable scalar merge domain.
//!
//! Frequent durable edits update a pending working epoch without minting
//! portable causal revisions. A revision is created only when the epoch is
//! sealed, with the frontier that the epoch actually observed as its parents.
use vstd::prelude::*;

use crate::error::CoreError;
use crate::graph::{compatible, first_conflict, frontier, valid_graph, Graph, RevisionModel};
use crate::id::{RevisionId, WorkingEpochId};
use crate::idset::RevisionSet;
use crate::scalar::{ScalarRegister, ScalarRevision};

verus! {

/// Abstract content of a working epoch.
pub ghost struct EpochModel {
    pub id: WorkingEpochId,
    pub value: Seq<u8>,
    pub observed_frontier: Set<RevisionId>,
}

/// Abstract content of a working scalar domain or of its snapshot.
pub ghost struct WorkingModel {
    pub causal: Graph,
    pub pending: Option<EpochModel>,
}

/// One crash-safe local editing epoch that has not yet become a portable causal
/// revision. `observed_frontier` is captured when the epoch begins.
#[derive(Clone, Debug, PartialEq, Eq)]
pub struct WorkingEpoch {
    pub id: WorkingEpochId,
    pub value: Vec<u8>,
    pub observed_frontier: RevisionSet,
}

impl View for WorkingEpoch {
    type V = EpochModel;

    open spec fn view(&self) -> EpochModel {
        EpochModel {
            id: self.id,
            value: self.value@,
            observed_frontier: self.observed_frontier@,
        }
    }
}

impl WorkingEpoch {
    pub fn duplicate(&self) -> (e: Self)
        ensures
            e@ == self@,
    {
        let value = self.value.clone();
        assert(value@ =~= self.value@);
        WorkingEpoch { id: self.id, value, observed_frontier: self.observed_frontier.duplicate() }
    }
}

pub open spec fn epoch_view(e: Option<WorkingEpoch>) -> Option<EpochModel> {
    match e {
        Some(x) => Some(x@),
        None => None,
    }
}

fn duplicate_pending(p: &Option<WorkingEpoch>) -> (r: Option<WorkingEpoch>)
    ensures
        epoch_view(r) == epoch_view(*p),
{
    match p {
        Some(e) => Some(e.duplicate()),
        None => None,
    }
}

/// Crash-recovery image for one working scalar domain.
#[derive(Clone, Debug, PartialEq, Eq)]
pub struct WorkingSnapshot {
    pub causal: ScalarRegister,
    pub pending: Option<WorkingEpoch>,
}

impl View for WorkingSnapshot {
    type V = WorkingModel;

    open spec fn view(&self) -> WorkingModel {
        WorkingModel { causal: self.causal@, pending: epoch_view(self.pending) }
    }
}

impl WorkingSnapshot {
    pub fn duplicate(&self) -> (s: Self)
        ensures
            s@ == self@,
    {
        WorkingSnapshot { causal: self.causal.duplicate(), pending: duplicate_pending(&self.pending) }
    }
}

/// A pending epoch always observed exactly the current frontier.
pub open spec fn working_consistent(w: WorkingModel) -> bool {
    w.pending matches Some(e) ==> e.observed_frontier == frontier(w.causal)
}

/// The statement that sealing the pending epoch of `w` under `id` creates.
pub open spec fn sealed_statement(e: EpochModel, id: RevisionId) -> RevisionModel {
    RevisionModel { id, value: e.value, parents: e.observed_frontier }
}

/// The outcome of merging `remote` into causal state `causal` (already sealed
/// when local work was dirty): on success the union becomes the causal state;
/// on a conflicting statement the canonically smallest conflicting identity is
/// reported and the sealed state is kept.
pub open spec fn observed_after(
    causal: Graph,
    remote: Graph,
    r: Result<Option<ScalarRevision>, CoreError>,
    after: WorkingModel,
    sealed: Option<RevisionModel>,
) -> bool {
    &&& compatible(causal, remote) ==> (r matches Ok(x) && match x {
        Some(rev) => sealed == Some(rev@),
        None => sealed is None,
    }) && after == (WorkingModel { causal: causal.union_prefer_right(remote), pending: None })
    &&& !compatible(causal, remote) ==> (r matches Err(e) && exists|k: RevisionId| e == (CoreError::DuplicateRevisionConflict { revision_id: k })
        && first_conflict(causal, remote, k)) && after == (WorkingModel { causal, pending: None })
}

/// What beginning an epoch does: refused while an epoch is open, otherwise
/// the new epoch captures the current frontier.
pub open spec fn begin_outcome(
    before: WorkingModel,
    epoch_id: WorkingEpochId,
    value: Seq<u8>,
    r: Result<(), CoreError>,
    after: WorkingModel,
) -> bool {
    match before.pending {
        Some(e) => r == Err::<(), CoreError>(CoreError::WorkingEpochAlreadyOpen { epoch_id: e.id })
            && after == before,
        None => r is Ok && after == (WorkingModel {
            causal: before.causal,
            pending: Some(EpochModel { id: epoch_id, value, observed_frontier: frontier(before.causal) }),
        }),
    }
}

/// What updating the pending value does: only the value changes.
pub open spec fn update_outcome(
    before: WorkingModel,
    value: Seq<u8>,
    r: Result<(), CoreError>,
    after: WorkingModel,
) -> bool {
    match before.pending {
        None => r == Err::<(), CoreError>(CoreError::NoWorkingEpoch) && after == before,
        Some(e) => r is Ok && after == (WorkingModel {
            causal: before.causal,
            pending: Some(EpochModel { value, ..e }),
        }),
    }
}

/// What sealing under `id` does: a known identity or a missing epoch is
/// refused; otherwise the epoch becomes one causal revision whose parents are
/// the frontier it observed.
pub open spec fn seal_outcome(
    before: WorkingModel,
    id: RevisionId,
    r: Result<ScalarRevision, CoreError>,
    after: WorkingModel,
) -> bool {
    if before.causal.contains_key(id) {
        r == Err::<ScalarRevision, CoreError>(CoreError::RevisionAlreadyKnown { revision_id: id })
            && after == before
    } else {
        match before.pending {
            None => r == Err::<ScalarRevision, CoreError>(CoreError::NoWorkingEpoch) && after == before,
            Some(e) => {
                &&& r matches Ok(rev) && rev@ == sealed_statement(e, id)
                &&& after == (WorkingModel {
                    causal: before.causal.insert(id, sealed_statement(e, id)),
                    pending: None,
                })
            },
        }
    }
}

/// What observing `remote` does: dirty work needs a seal identity and clean
/// work must not bring one; dirty work is sealed first, then merged.
pub open spec fn observe_outcome(
    before: WorkingModel,
    remote: Graph,
    pre_observation_revision_id: Option<RevisionId>,
    r: Result<Option<ScalarRevision>, CoreError>,
    after: WorkingModel,
) -> bool {
    match (before.pending, pre_observation_revision_id) {
        (Some(_), None) => r == Err::<Option<ScalarRevision>, CoreError>(
            CoreError::DirtyObservationRequiresSeal,
        ) && after == before,
        (None, Some(id)) => r == Err::<Option<ScalarRevision>, CoreError>(
            CoreError::UnexpectedPreObservationRevision { revision_id: id },
        ) && after == before,
        (None, None) => observed_after(before.causal, remote, r, after, None),
        (Some(e), Some(id)) => if before.causal.contains_key(id) {
            r == Err::<Option<ScalarRevision>, CoreError>(CoreError::RevisionAlreadyKnown { revision_id: id })
                && after == before
        } else {
            observed_after(
                before.causal.insert(id, sealed_statement(e, id)),
                remote,
                r,
                after,
                Some(sealed_statement(e, id)),
            )
        },
    }
}

/// Local working state over one portable scalar merge domain.
#[derive(Debug, PartialEq, Eq)]
pub struct WorkingScalar {
    causal: ScalarRegister,
    pending: Option<WorkingEpoch>,
}

impl View for WorkingScalar {
    type V = WorkingModel;

    closed spec fn view(&self) -> WorkingModel {
        WorkingModel { causal: self.causal@, pending: epoch_view(self.pending) }
    }
}

impl WorkingScalar {
    /// Every working state is consistent.
    #[verifier::type_invariant]
    pub open spec fn consistent(self) -> bool {
        working_consistent(self@)
    }

    pub fn from_causal(causal: ScalarRegister) -> (r: Result<Self, CoreError>)
        ensures
            r matches Ok(w) && w@ == (WorkingModel { causal: causal@, pending: None }),
    {
        causal.validate()?;
        Ok(WorkingScalar { causal, pending: None })
    }

    pub fn causal(&self) -> (r: &ScalarRegister)
        ensures
            r@ == self@.causal,
    {
        &self.causal
    }

    pub fn pending(&self) -> (r: Option<&WorkingEpoch>)
        ensures
            match r {
                Some(e) => self@.pending == Some(e@),
                None => self@.pending is None,
            },
    {
        match &self.pending {
            Some(e) => Some(e),
            None => None,
        }
    }

    pub fn is_dirty(&self) -> (b: bool)
        ensures
            b == self@.pending is Some,
    {
        self.pending.is_some()
    }

    /// Holds whenever a value is visible: the pending value when dirty, the
    /// materialised causal value otherwise.
    pub fn working_value(&self) -> (r: Option<&Vec<u8>>)
        ensures
            self@.pending matches Some(e) ==> r matches Some(v) && v@ == e.value,
            self@.pending is None ==> (r is None <==> frontier(self@.causal) == Set::<RevisionId>::empty()),
            self@.pending is None ==> (r matches Some(v) ==> exists|x: RevisionId| #[trigger]
                frontier(self@.causal).contains(x) && v@ == self@.causal[x].value && forall|y: RevisionId| #[trigger]
                    frontier(self@.causal).contains(y) ==> y == x || crate::idset::rid_lt(y, x)),
    {
        match &self.pending {
            Some(e) => Some(&e.value),
            None => self.causal.materialized(),
        }
    }

    /// Starts one local edit epoch, capturing the frontier observable now.
    pub fn begin_epoch(&mut self, epoch_id: WorkingEpochId, value: Vec<u8>) -> (r: Result<(), CoreError>)
        ensures
            begin_outcome(old(self)@, epoch_id, value@, r, final(self)@),
    {
        if let Some(pending) = &self.pending {
            return Err(CoreError::WorkingEpochAlreadyOpen { epoch_id: pending.id });
        }
        let observed_frontier = self.causal.frontier_ids();
        self.pending = Some(WorkingEpoch { id: epoch_id, value, observed_frontier });
        Ok(())
    }

    /// Replaces the pending value without touching causal metadata.
    pub fn update_pending(&mut self, value: Vec<u8>) -> (r: Result<(), CoreError>)
        ensures
            update_outcome(old(self)@, value@, r, final(self)@),
    {
        proof {
            use_type_invariant(&*self);
        }
        match &self.pending {
            None => Err(CoreError::NoWorkingEpoch),
            Some(e) => {
                let id = e.id;
                let observed_frontier = e.observed_frontier.duplicate();
                self.pending = Some(WorkingEpoch { id, value, observed_frontier });
                Ok(())
            },
        }
    }

    /// Converts the pending epoch into one portable causal revision whose
    /// parents are the frontier the epoch observed.
    pub fn seal(&mut self, revision_id: RevisionId) -> (r: Result<ScalarRevision, CoreError>)
        ensures
            seal_outcome(old(self)@, revision_id, r, final(self)@),
    {
        proof {
            use_type_invariant(&*self);
        }
        if self.causal.revision(revision_id).is_some() {
            return Err(CoreError::RevisionAlreadyKnown { revision_id });
        }
        let revision = match &self.pending {
            None => {
                return Err(CoreError::NoWorkingEpoch);
            },
            Some(pending) => {
                let value = pending.value.clone();
                assert(value@ =~= pending.value@);
                ScalarRevision::new(revision_id, value, pending.observed_frontier.duplicate())
            },
        };
        proof {
            assert(revision@.parents.subset_of(self@.causal.dom()));
        }
        self.pending = None;
        let mut causal = ScalarRegister::new();
        std::mem::swap(&mut causal, &mut self.causal);
        let inserted = causal.insert_revision(revision.duplicate());
        assert(inserted is Ok);
        self.causal = causal;
        Ok(revision)
    }

    /// Makes remote state semantically observable.
    ///
    /// Dirty local work must be sealed first, under the supplied identity, with
    /// the frontier it actually observed; only then is the remote state merged.
    pub fn observe_remote(
        &mut self,
        remote: &ScalarRegister,
        pre_observation_revision_id: Option<RevisionId>,
    ) -> (r: Result<Option<ScalarRevision>, CoreError>)
        ensures
            observe_outcome(old(self)@, remote@, pre_observation_revision_id, r, final(self)@),
    {
        proof {
            use_type_invariant(&*self);
        }
        remote.validate()?;
        let sealed = if self.pending.is_some() {
            match pre_observation_revision_id {
                Some(revision_id) => Some(self.seal(revision_id)?),
                None => {
                    return Err(CoreError::DirtyObservationRequiresSeal);
                },
            }
        } else {
            match pre_observation_revision_id {
                Some(revision_id) => {
                    return Err(CoreError::UnexpectedPreObservationRevision { revision_id });
                },
                None => None,
            }
        };
        let merged = self.causal.merge(remote)?;
        self.causal = merged;
        Ok(sealed)
    }

    /// A crash-recovery image of the whole working state.
    pub fn snapshot(&self) -> (s: WorkingSnapshot)
        ensures
            s@ == self@,
            working_consistent(s@),
    {
        proof {
            use_type_invariant(self);
        }
        WorkingSnapshot { causal: self.causal.duplicate(), pending: duplicate_pending(&self.pending) }
    }

    /// Rebuilds working state from an image, refusing a pending epoch whose
    /// observed frontier is not the frontier of the image's causal state.
    pub fn restore(snapshot: WorkingSnapshot) -> (r: Result<Self, CoreError>)
        ensures
            r is Ok <==> working_consistent(snapshot@),
            r matches Ok(w) ==> w@ == snapshot@,
            r is Err ==> r == Err::<Self, CoreError>(CoreError::InvalidWorkingSnapshot),
    {
        snapshot.causal.validate()?;
        if let Some(pending) = &snapshot.pending {
            let current = snapshot.causal.frontier_ids();
            if !pending.observed_frontier.same(&current) {
                return Err(CoreError::InvalidWorkingSnapshot);
            }
        }
        Ok(WorkingScalar { causal: snapshot.causal, pending: snapshot.pending })
    }
}

impl Clone for WorkingScalar {
    fn clone(&self) -> (w: Self)
        ensures
            w@ == self@,
    {
        proof {
            use_type_invariant(self);
        }
        WorkingScalar { causal: self.causal.duplicate(), pending: duplicate_pending(&self.pending) }
    }
}

} // verus!
