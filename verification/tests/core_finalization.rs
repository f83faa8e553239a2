use apc::error::CoreError;
use apc::finalization::FinalizationLedger;
use apc::id::{RevisionId, LOGICAL_ID_BYTES};
use apc::idset::RevisionSet;
use apc::scalar::{ScalarRegister, ScalarRevision};

fn fin_rid(value: u64) -> RevisionId {
    let mut bytes = [0_u8; LOGICAL_ID_BYTES];
    bytes[LOGICAL_ID_BYTES - 8..].copy_from_slice(&value.to_be_bytes());
    RevisionId::from_bytes(bytes)
}

fn fin_set(ids: &[u64]) -> RevisionSet {
    RevisionSet::from_ids(ids.iter().map(|id| fin_rid(*id)).collect())
}

fn chain() -> ScalarRegister {
    let mut causal = ScalarRegister::new();
    causal.assign(fin_rid(100), b"remote-base".to_vec()).unwrap();
    causal.assign(fin_rid(200), b"local-parent".to_vec()).unwrap();
    causal.assign(fin_rid(300), b"local-child".to_vec()).unwrap();
    causal
}

#[test]
fn finalization_is_idempotent_and_preserves_revision_identity() {
    let causal = chain();
    let before = causal.materialized_revision().unwrap().id;
    let mut ledger = FinalizationLedger::new();
    ledger.register_local(&causal, fin_rid(300)).unwrap();

    let first = ledger.finalize(&causal, fin_rid(300)).unwrap();
    let second = ledger.finalize(&causal, fin_rid(300)).unwrap();

    assert_eq!(first, second);
    assert_eq!(first.revision_id, fin_rid(300));
    assert_eq!(causal.materialized_revision().unwrap().id, before);
    assert_eq!(ledger.finalized().len(), 1);
}

#[test]
fn handoff_requires_finalized_local_ancestor_closure() {
    let causal = chain();
    let mut ledger = FinalizationLedger::new();
    ledger.register_local(&causal, fin_rid(200)).unwrap();
    ledger.register_local(&causal, fin_rid(300)).unwrap();
    ledger.finalize(&causal, fin_rid(300)).unwrap();

    assert_eq!(
        ledger.handoff(&causal, vec![fin_rid(300)]).unwrap_err(),
        CoreError::HandoffRequiresFinalizedRevision {
            revision_id: fin_rid(200),
        }
    );
    assert!(ledger.exposed_local_ids().is_empty());

    ledger.finalize(&causal, fin_rid(200)).unwrap();
    ledger.handoff(&causal, vec![fin_rid(300)]).unwrap();

    assert_eq!(ledger.exposed_local_ids(), &fin_set(&[200, 300]));
    assert_eq!(ledger.handed_off_local_ids(), &fin_set(&[300]));
}

#[test]
fn remote_ancestors_do_not_require_local_finalization() {
    let mut causal = ScalarRegister::new();
    causal.assign(fin_rid(100), b"remote".to_vec()).unwrap();
    causal.assign(fin_rid(200), b"local".to_vec()).unwrap();

    let mut ledger = FinalizationLedger::new();
    ledger.register_local(&causal, fin_rid(200)).unwrap();
    ledger.finalize(&causal, fin_rid(200)).unwrap();
    ledger.handoff(&causal, vec![fin_rid(200)]).unwrap();

    assert_eq!(ledger.exposed_local_ids(), &fin_set(&[200]));
}

#[test]
fn finalized_statement_cannot_be_rewritten() {
    let mut original = ScalarRegister::new();
    original.assign(fin_rid(100), b"base".to_vec()).unwrap();
    original.assign(fin_rid(200), b"original".to_vec()).unwrap();

    let mut ledger = FinalizationLedger::new();
    ledger.register_local(&original, fin_rid(200)).unwrap();
    ledger.finalize(&original, fin_rid(200)).unwrap();

    let forged = ScalarRegister::from_revisions(vec![
        ScalarRevision::new(fin_rid(100), b"base".to_vec(), RevisionSet::new()),
        ScalarRevision::new(fin_rid(200), b"rewritten".to_vec(), fin_set(&[100])),
    ])
    .unwrap();

    assert_eq!(
        ledger.validate_against(&forged).unwrap_err(),
        CoreError::FinalizedStatementConflict {
            revision_id: fin_rid(200),
        }
    );
}

#[test]
fn crash_snapshot_restores_exposure_without_ack_semantics() {
    let causal = chain();
    let mut ledger = FinalizationLedger::new();
    ledger.register_local(&causal, fin_rid(200)).unwrap();
    ledger.register_local(&causal, fin_rid(300)).unwrap();
    ledger.finalize(&causal, fin_rid(200)).unwrap();
    ledger.finalize(&causal, fin_rid(300)).unwrap();
    ledger.handoff(&causal, vec![fin_rid(300)]).unwrap();

    let restored = FinalizationLedger::restore(ledger.snapshot(), &causal).unwrap();

    assert_eq!(restored, ledger);
    assert_eq!(restored.exposed_local_ids(), &fin_set(&[200, 300]));
}

#[test]
fn unknown_and_foreign_revisions_are_refused() {
    let causal = chain();
    let mut ledger = FinalizationLedger::new();
    assert_eq!(
        ledger.register_local(&causal, fin_rid(999)).unwrap_err(),
        CoreError::UnknownRevision { revision_id: fin_rid(999) }
    );
    assert_eq!(
        ledger.finalize(&causal, fin_rid(100)).unwrap_err(),
        CoreError::UnknownLocalRevision { revision_id: fin_rid(100) }
    );
    assert!(ledger.finalized().is_empty());
    assert!(ledger.local_revision_ids().is_empty());
}

#[test]
fn restore_refuses_a_ledger_that_does_not_match_the_graph() {
    let causal = chain();
    let mut ledger = FinalizationLedger::new();
    ledger.register_local(&causal, fin_rid(300)).unwrap();
    let snapshot = ledger.snapshot();

    let mut shorter = ScalarRegister::new();
    shorter.assign(fin_rid(100), b"remote-base".to_vec()).unwrap();
    assert_eq!(
        FinalizationLedger::restore(snapshot, &shorter).unwrap_err(),
        CoreError::UnknownRevision { revision_id: fin_rid(300) }
    );
}
