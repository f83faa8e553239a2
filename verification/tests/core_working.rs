use apc::error::CoreError;
use apc::id::{RevisionId, WorkingEpochId, LOGICAL_ID_BYTES};
use apc::idset::RevisionSet;
use apc::scalar::ScalarRegister;
use apc::working::{WorkingEpoch, WorkingScalar, WorkingSnapshot};

fn working_bytes(value: u64) -> [u8; LOGICAL_ID_BYTES] {
    let mut bytes = [0_u8; LOGICAL_ID_BYTES];
    bytes[LOGICAL_ID_BYTES - 8..].copy_from_slice(&value.to_be_bytes());
    bytes
}

fn working_rid(value: u64) -> RevisionId {
    RevisionId::from_bytes(working_bytes(value))
}

fn working_wid(value: u64) -> WorkingEpochId {
    WorkingEpochId::from_bytes(working_bytes(value))
}

fn working_set(ids: &[u64]) -> RevisionSet {
    RevisionSet::from_ids(ids.iter().map(|id| working_rid(*id)).collect())
}

fn working_base() -> ScalarRegister {
    let mut register = ScalarRegister::new();
    register.assign(working_rid(100), b"base".to_vec()).unwrap();
    register
}

fn value_of(working: &WorkingScalar) -> Option<&[u8]> {
    working.working_value().map(|v| v.as_slice())
}

#[test]
fn many_durable_updates_coalesce_into_one_causal_revision() {
    let mut working = WorkingScalar::from_causal(working_base()).unwrap();
    working.begin_epoch(working_wid(1), b"edit-0".to_vec()).unwrap();

    for index in 1..10_000 {
        working.update_pending(format!("edit-{index}").into_bytes()).unwrap();
    }

    assert_eq!(working.causal().len(), 1);
    assert_eq!(working.pending().unwrap().observed_frontier, working_set(&[100]));

    let revision = working.seal(working_rid(50)).unwrap();
    assert_eq!(revision.parents, working_set(&[100]));
    assert_eq!(revision.value, b"edit-9999".to_vec());
    assert_eq!(working.causal().len(), 2);
    assert_eq!(value_of(&working), Some(&b"edit-9999"[..]));
}

#[test]
fn dirty_remote_observation_requires_pre_observation_seal() {
    let mut working = WorkingScalar::from_causal(working_base()).unwrap();
    working.begin_epoch(working_wid(1), b"local".to_vec()).unwrap();

    let mut remote = working_base();
    remote.assign(working_rid(900), b"remote".to_vec()).unwrap();

    assert_eq!(
        working.observe_remote(&remote, None).unwrap_err(),
        CoreError::DirtyObservationRequiresSeal
    );
    assert!(working.is_dirty());
}

#[test]
fn remote_observation_preserves_true_concurrency() {
    let mut working = WorkingScalar::from_causal(working_base()).unwrap();
    working.begin_epoch(working_wid(1), b"local-before-remote".to_vec()).unwrap();

    let mut remote = working_base();
    remote.assign(working_rid(900), b"remote".to_vec()).unwrap();

    let sealed = working.observe_remote(&remote, Some(working_rid(50))).unwrap().unwrap();

    assert_eq!(sealed.parents, working_set(&[100]));
    assert_eq!(working.causal().frontier_ids(), working_set(&[50, 900]));
    assert!(!working.causal().is_ancestor(working_rid(900), working_rid(50)));
    assert!(!working.causal().is_ancestor(working_rid(50), working_rid(900)));
    assert_eq!(value_of(&working), Some(&b"remote"[..]));

    working.begin_epoch(working_wid(2), b"local-after-remote".to_vec()).unwrap();
    let joined = working.seal(working_rid(10)).unwrap();
    assert_eq!(joined.parents, working_set(&[50, 900]));
    assert_eq!(value_of(&working), Some(&b"local-after-remote"[..]));
}

#[test]
fn snapshot_restores_pending_value_and_original_frontier() {
    let mut working = WorkingScalar::from_causal(working_base()).unwrap();
    working.begin_epoch(working_wid(7), b"first".to_vec()).unwrap();
    working.update_pending(b"durable-latest".to_vec()).unwrap();

    let snapshot = working.snapshot();
    let mut restored = WorkingScalar::restore(snapshot).unwrap();

    assert_eq!(restored.pending().unwrap().id, working_wid(7));
    assert_eq!(restored.pending().unwrap().observed_frontier, working_set(&[100]));
    assert_eq!(value_of(&restored), Some(&b"durable-latest"[..]));

    let sealed = restored.seal(working_rid(200)).unwrap();
    assert_eq!(sealed.parents, working_set(&[100]));
}

#[test]
fn restore_rejects_pending_frontier_not_matching_causal_state() {
    let snapshot = WorkingSnapshot {
        causal: working_base(),
        pending: Some(WorkingEpoch {
            id: working_wid(1),
            value: b"forged".to_vec(),
            observed_frontier: working_set(&[999]),
        }),
    };

    assert_eq!(
        WorkingScalar::restore(snapshot).unwrap_err(),
        CoreError::InvalidWorkingSnapshot
    );
}

#[test]
fn sealing_cannot_reuse_an_existing_revision_identity() {
    let mut working = WorkingScalar::from_causal(working_base()).unwrap();
    working.begin_epoch(working_wid(1), b"local".to_vec()).unwrap();

    assert_eq!(
        working.seal(working_rid(100)).unwrap_err(),
        CoreError::RevisionAlreadyKnown {
            revision_id: working_rid(100),
        }
    );
    assert!(working.is_dirty());
}

#[test]
fn second_epoch_and_missing_epoch_are_refused() {
    let mut working = WorkingScalar::from_causal(working_base()).unwrap();
    assert_eq!(
        working.update_pending(b"nothing open".to_vec()).unwrap_err(),
        CoreError::NoWorkingEpoch
    );
    assert_eq!(working.seal(working_rid(5)).unwrap_err(), CoreError::NoWorkingEpoch);
    assert!(!working.is_dirty());
    assert_eq!(value_of(&working), Some(&b"base"[..]));

    working.begin_epoch(working_wid(3), b"draft".to_vec()).unwrap();
    assert_eq!(
        working.begin_epoch(working_wid(4), b"again".to_vec()).unwrap_err(),
        CoreError::WorkingEpochAlreadyOpen { epoch_id: working_wid(3) }
    );
    assert_eq!(value_of(&working), Some(&b"draft"[..]));
}

#[test]
fn clean_observation_refuses_an_unneeded_seal_identity() {
    let mut working = WorkingScalar::from_causal(working_base()).unwrap();
    let mut remote = working_base();
    remote.assign(working_rid(900), b"remote".to_vec()).unwrap();

    assert_eq!(
        working.observe_remote(&remote, Some(working_rid(5))).unwrap_err(),
        CoreError::UnexpectedPreObservationRevision { revision_id: working_rid(5) }
    );
    assert_eq!(working.observe_remote(&remote, None).unwrap(), None);
    assert_eq!(value_of(&working), Some(&b"remote"[..]));
}
