//! Errors of the portable core.
use vstd::prelude::*;

use crate::id::{AtomId, ContinuumId, RevisionId, WorkingEpochId};

verus! {

/// Every way in which a core operation can refuse its input.
#[derive(Debug, Clone, PartialEq, Eq)]
pub enum CoreError {
    DuplicateRevisionConflict { revision_id: RevisionId },
    MissingParent { revision_id: RevisionId, parent_id: RevisionId },
    CausalCycle { revision_id: RevisionId },
    DuplicateAtomId { atom_id: AtomId },
    ContinuumMismatch { left: ContinuumId, right: ContinuumId },
    WorkingEpochAlreadyOpen { epoch_id: WorkingEpochId },
    NoWorkingEpoch,
    RevisionAlreadyKnown { revision_id: RevisionId },
    DirtyObservationRequiresSeal,
    UnexpectedPreObservationRevision { revision_id: RevisionId },
    InvalidWorkingSnapshot,
    UnknownRevision { revision_id: RevisionId },
    UnknownLocalRevision { revision_id: RevisionId },
    FinalizedStatementConflict { revision_id: RevisionId },
    HandoffRequiresFinalizedRevision { revision_id: RevisionId },
    InvalidFinalizationSnapshot,
}

} // verus!
