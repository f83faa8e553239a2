//! Minimal local state machine for one scalar merge domain.
//!
//! It keeps the boundaries coupled: a sealed local revision is registered as
//! local, remote observation seals dirty work before the merge, finalization
//! freezes an existing local statement, and handoff records exposure before
//! any acknowledgement can exist.
use vstd::prelude::*;

use crate::error::CoreError;
use crate::finalization::{
    finalize_outcome, handoff_outcome, ledger_consistent, ledger_restorable, ledger_restore_refusal,
    register_outcome, FinalizationLedger, FinalizationSnapshot, FinalizedStatement, LedgerModel,
    finalized_intact, statement_fault,
};
use crate::graph::{frontier, Graph};
use crate::id::{RevisionId, WorkingEpochId};
use crate::scalar::{ScalarRegister, ScalarRevision};
use crate::working::{
    begin_outcome, observe_outcome, seal_outcome, update_outcome, working_consistent, WorkingEpoch,
    WorkingModel, WorkingScalar, WorkingSnapshot,
};

verus! {

/// Abstract content of a local scalar domain or of its snapshot.
pub ghost struct DomainModel {
    pub working: WorkingModel,
    pub ledger: LedgerModel,
}

/// What every domain keeps: consistent working state, and bookkeeping that
/// only names revisions of the causal state and whose frozen statements that
/// state still holds unchanged.
pub open spec fn domain_consistent(m: DomainModel) -> bool {
    &&& working_consistent(m.working)
    &&& ledger_restorable(m.ledger, m.working.causal)
}

/// The error with which restore refuses an image.
pub open spec fn domain_restore_refusal(m: DomainModel, e: CoreError) -> bool {
    if !working_consistent(m.working) {
        e == CoreError::InvalidWorkingSnapshot
    } else {
        ledger_restore_refusal(m.ledger, m.working.causal, e)
    }
}

/// The bookkeeping after observing remote state: an identity that the call
/// sealed, present afterwards and not before, is registered as local; the
/// rest is unchanged.
pub open spec fn observed_ledger(
    before: LedgerModel,
    causal_before: Graph,
    causal_after: Graph,
    pre_observation_revision_id: Option<RevisionId>,
) -> LedgerModel {
    match pre_observation_revision_id {
        Some(id) => if !causal_before.contains_key(id) && causal_after.contains_key(id) {
            LedgerModel { local: before.local.insert(id), ..before }
        } else {
            before
        },
        None => before,
    }
}

/// Bookkeeping of a fresh domain.
pub open spec fn empty_ledger() -> LedgerModel {
    LedgerModel { local: Set::empty(), finalized: Map::empty(), exposed: Set::empty(), handed_off: Set::empty() }
}

/// Frozen statements stay intact when the causal state only grows.
pub proof fn lemma_intact_when_extended(finalized: Graph, causal: Graph, grown: Graph)
    requires
        finalized_intact(finalized, causal),
        causal.submap_of(grown),
    ensures
        finalized_intact(finalized, grown),
{
    assert forall|k: RevisionId| !#[trigger] statement_fault(finalized, grown, k) by {
        if statement_fault(finalized, grown, k) {
            assert(!statement_fault(finalized, causal, k));
            assert(causal.dom().contains(k));
        }
    }
}

/// Crash-recovery image for one local scalar merge domain: working state and
/// finalization bookkeeping together, so that a restart cannot restore one
/// boundary while forgetting the other.
#[derive(Clone, Debug, PartialEq, Eq)]
pub struct LocalScalarSnapshot {
    pub working: WorkingSnapshot,
    pub finalization: FinalizationSnapshot,
}

impl View for LocalScalarSnapshot {
    type V = DomainModel;

    open spec fn view(&self) -> DomainModel {
        DomainModel { working: self.working@, ledger: self.finalization@ }
    }
}

impl LocalScalarSnapshot {
    /// A copy of the same image.
    pub fn duplicate(&self) -> (s: Self)
        ensures
            s@ == self@,
    {
        LocalScalarSnapshot { working: self.working.duplicate(), finalization: self.finalization.duplicate() }
    }
}

/// Minimal local state machine for one scalar merge domain.
#[derive(Debug, PartialEq, Eq)]
pub struct LocalScalarDomain {
    working: WorkingScalar,
    finalization: FinalizationLedger,
}

impl View for LocalScalarDomain {
    type V = DomainModel;

    closed spec fn view(&self) -> DomainModel {
        DomainModel { working: self.working@, ledger: self.finalization@ }
    }
}

impl LocalScalarDomain {
    #[verifier::type_invariant]
    spec fn inv(self) -> bool {
        ledger_restorable(self.finalization@, self.working@.causal)
    }

    fn placeholder() -> (d: Self)
        ensures
            d@.ledger == empty_ledger(),
    {
        let working = WorkingScalar::from_causal(ScalarRegister::new()).unwrap();
        LocalScalarDomain { working, finalization: FinalizationLedger::new() }
    }

    pub fn from_causal(causal: ScalarRegister) -> (r: Result<Self, CoreError>)
        ensures
            r matches Ok(d) && d@ == (DomainModel {
                working: WorkingModel { causal: causal@, pending: None },
                ledger: empty_ledger(),
            }),
    {
        let working = WorkingScalar::from_causal(causal)?;
        Ok(LocalScalarDomain { working, finalization: FinalizationLedger::new() })
    }

    pub fn causal(&self) -> (r: &ScalarRegister)
        ensures
            r@ == self@.working.causal,
    {
        self.working.causal()
    }

    pub fn pending(&self) -> (r: Option<&WorkingEpoch>)
        ensures
            match r {
                Some(e) => self@.working.pending == Some(e@),
                None => self@.working.pending is None,
            },
    {
        self.working.pending()
    }

    /// The pending value when dirty, the materialised causal value otherwise.
    pub fn working_value(&self) -> (r: Option<&Vec<u8>>)
        ensures
            self@.working.pending matches Some(e) ==> r matches Some(v) && v@ == e.value,
            self@.working.pending is None ==> (r is None <==> frontier(self@.working.causal)
                == Set::<RevisionId>::empty()),
            self@.working.pending is None ==> (r matches Some(v) ==> exists|x: RevisionId| #[trigger]
                frontier(self@.working.causal).contains(x) && v@ == self@.working.causal[x].value
                    && forall|y: RevisionId| #[trigger]
                    frontier(self@.working.causal).contains(y) ==> y == x || crate::idset::rid_lt(y, x)),
    {
        self.working.working_value()
    }

    pub fn finalization(&self) -> (r: &FinalizationLedger)
        ensures
            r@ == self@.ledger,
    {
        &self.finalization
    }

    pub fn begin_epoch(&mut self, epoch_id: WorkingEpochId, value: Vec<u8>) -> (r: Result<(), CoreError>)
        ensures
            begin_outcome(old(self)@.working, epoch_id, value@, r, final(self)@.working),
            final(self)@.ledger == old(self)@.ledger,
    {
        let mut d = LocalScalarDomain::placeholder();
        std::mem::swap(self, &mut d);
        proof {
            use_type_invariant(&d);
        }
        let LocalScalarDomain { mut working, finalization } = d;
        let r = working.begin_epoch(epoch_id, value);
        *self = LocalScalarDomain { working, finalization };
        r
    }

    pub fn update_pending(&mut self, value: Vec<u8>) -> (r: Result<(), CoreError>)
        ensures
            update_outcome(old(self)@.working, value@, r, final(self)@.working),
            final(self)@.ledger == old(self)@.ledger,
    {
        let mut d = LocalScalarDomain::placeholder();
        std::mem::swap(self, &mut d);
        proof {
            use_type_invariant(&d);
        }
        let LocalScalarDomain { mut working, finalization } = d;
        let r = working.update_pending(value);
        *self = LocalScalarDomain { working, finalization };
        r
    }

    /// Seals the pending epoch and registers the new revision as local.
    pub fn seal_local(&mut self, revision_id: RevisionId) -> (r: Result<ScalarRevision, CoreError>)
        ensures
            seal_outcome(old(self)@.working, revision_id, r, final(self)@.working),
            r is Ok ==> final(self)@.ledger == (LedgerModel {
                local: old(self)@.ledger.local.insert(revision_id),
                ..old(self)@.ledger
            }),
            r is Err ==> final(self)@.ledger == old(self)@.ledger,
    {
        let mut d = LocalScalarDomain::placeholder();
        std::mem::swap(self, &mut d);
        proof {
            use_type_invariant(&d);
        }
        let LocalScalarDomain { mut working, mut finalization } = d;
        let ghost causal0 = working@.causal;
        let r = working.seal(revision_id);
        if r.is_ok() {
            let registered = finalization.register_local(working.causal(), revision_id);
            assert(registered is Ok);
            proof {
                assert(causal0.submap_of(working@.causal));
                lemma_intact_when_extended(finalization@.finalized, causal0, working@.causal);
            }
        }
        *self = LocalScalarDomain { working, finalization };
        r
    }

    /// Applies a remote state at the semantic observation boundary. Dirty
    /// work is sealed first, and a revision sealed by this call is
    /// registered as local before the call returns, whether the merge that
    /// follows succeeds or is refused.
    pub fn observe_remote(
        &mut self,
        remote: &ScalarRegister,
        pre_observation_revision_id: Option<RevisionId>,
    ) -> (r: Result<Option<ScalarRevision>, CoreError>)
        ensures
            observe_outcome(old(self)@.working, remote@, pre_observation_revision_id, r, final(self)@.working),
            final(self)@.ledger == observed_ledger(
                old(self)@.ledger,
                old(self)@.working.causal,
                final(self)@.working.causal,
                pre_observation_revision_id,
            ),
            r matches Ok(Some(rev)) ==> final(self)@.ledger == (LedgerModel {
                local: old(self)@.ledger.local.insert(rev.id),
                ..old(self)@.ledger
            }),
    {
        let mut d = LocalScalarDomain::placeholder();
        std::mem::swap(self, &mut d);
        proof {
            use_type_invariant(&d);
        }
        let LocalScalarDomain { mut working, mut finalization } = d;
        let ghost causal0 = working@.causal;
        let known_before = match pre_observation_revision_id {
            Some(id) => working.causal().revision(id).is_some(),
            None => true,
        };
        let r = working.observe_remote(remote, pre_observation_revision_id);
        proof {
            assert(causal0.submap_of(working@.causal));
            lemma_intact_when_extended(finalization@.finalized, causal0, working@.causal);
        }
        if let Some(id) = pre_observation_revision_id {
            if !known_before && working.causal().revision(id).is_some() {
                let registered = finalization.register_local(working.causal(), id);
                assert(registered is Ok);
            }
        }
        *self = LocalScalarDomain { working, finalization };
        r
    }

    /// Freezes one local statement of the causal state.
    pub fn finalize(&mut self, revision_id: RevisionId) -> (r: Result<FinalizedStatement, CoreError>)
        ensures
            finalize_outcome(old(self)@.ledger, old(self)@.working.causal, revision_id, r, final(self)@.ledger),
            final(self)@.working == old(self)@.working,
    {
        let mut d = LocalScalarDomain::placeholder();
        std::mem::swap(self, &mut d);
        proof {
            use_type_invariant(&d);
        }
        let LocalScalarDomain { working, mut finalization } = d;
        let ghost f0 = finalization@.finalized;
        let r = finalization.finalize(working.causal(), revision_id);
        proof {
            assert forall|k: RevisionId| !#[trigger] statement_fault(finalization@.finalized, working@.causal, k) by {
                assert(!statement_fault(f0, working@.causal, k));
            }
        }
        *self = LocalScalarDomain { working, finalization };
        r
    }

    /// Hands revisions to an external transport; see
    /// `FinalizationLedger::handoff`.
    pub fn handoff(&mut self, revision_ids: Vec<RevisionId>) -> (r: Result<(), CoreError>)
        ensures
            handoff_outcome(old(self)@.ledger, old(self)@.working.causal, revision_ids@, r, final(self)@.ledger),
            final(self)@.working == old(self)@.working,
    {
        let mut d = LocalScalarDomain::placeholder();
        std::mem::swap(self, &mut d);
        proof {
            use_type_invariant(&d);
        }
        let LocalScalarDomain { working, mut finalization } = d;
        let r = finalization.handoff(working.causal(), revision_ids);
        *self = LocalScalarDomain { working, finalization };
        r
    }

    /// A crash-recovery image of the whole domain; restore accepts it and
    /// rebuilds exactly this domain.
    pub fn snapshot(&self) -> (s: LocalScalarSnapshot)
        ensures
            s@ == self@,
            domain_consistent(s@),
    {
        proof {
            use_type_invariant(self);
        }
        LocalScalarSnapshot { working: self.working.snapshot(), finalization: self.finalization.snapshot() }
    }

    /// Rebuilds a domain from an image: the working state first, then the
    /// bookkeeping against its causal state.
    pub fn restore(snapshot: LocalScalarSnapshot) -> (r: Result<Self, CoreError>)
        ensures
            r is Ok <==> domain_consistent(snapshot@),
            r matches Ok(d) ==> d@ == snapshot@,
            r matches Err(e) ==> domain_restore_refusal(snapshot@, e),
    {
        let working = WorkingScalar::restore(snapshot.working)?;
        let finalization = FinalizationLedger::restore(snapshot.finalization, working.causal())?;
        Ok(LocalScalarDomain { working, finalization })
    }
}

impl Clone for LocalScalarDomain {
    fn clone(&self) -> (d: Self)
        ensures
            d@ == self@,
    {
        proof {
            use_type_invariant(self);
        }
        LocalScalarDomain { working: self.working.clone(), finalization: self.finalization.clone() }
    }
}

} // verus!
