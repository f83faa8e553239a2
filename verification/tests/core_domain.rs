use apc::domain::LocalScalarDomain;
use apc::id::{RevisionId, WorkingEpochId, LOGICAL_ID_BYTES};
use apc::idset::RevisionSet;
use apc::scalar::ScalarRegister;

fn domain_bytes(value: u64) -> [u8; LOGICAL_ID_BYTES] {
    let mut bytes = [0_u8; LOGICAL_ID_BYTES];
    bytes[LOGICAL_ID_BYTES - 8..].copy_from_slice(&value.to_be_bytes());
    bytes
}

fn domain_rid(value: u64) -> RevisionId {
    RevisionId::from_bytes(domain_bytes(value))
}

fn domain_wid(value: u64) -> WorkingEpochId {
    WorkingEpochId::from_bytes(domain_bytes(value))
}

fn domain_base() -> ScalarRegister {
    let mut causal = ScalarRegister::new();
    causal.assign(domain_rid(100), b"base".to_vec()).unwrap();
    causal
}

fn domain_set(ids: &[u64]) -> RevisionSet {
    RevisionSet::from_ids(ids.iter().map(|id| domain_rid(*id)).collect())
}

#[test]
fn remote_observation_registers_the_pre_observation_local_revision() {
    let mut domain = LocalScalarDomain::from_causal(domain_base()).unwrap();
    domain.begin_epoch(domain_wid(1), b"local-before-remote".to_vec()).unwrap();

    let mut remote = domain_base();
    remote.assign(domain_rid(900), b"remote".to_vec()).unwrap();

    let sealed = domain.observe_remote(&remote, Some(domain_rid(50))).unwrap().unwrap();

    assert_eq!(sealed.parents, domain_set(&[100]));
    assert!(domain.finalization().local_revision_ids().contains(&domain_rid(50)));
    assert_eq!(domain.causal().frontier_ids(), domain_set(&[50, 900]));
}

#[test]
fn sealed_local_revision_can_finalize_and_cross_handoff_boundary() {
    let mut domain = LocalScalarDomain::from_causal(domain_base()).unwrap();
    domain.begin_epoch(domain_wid(1), b"local".to_vec()).unwrap();
    domain.seal_local(domain_rid(200)).unwrap();

    let statement = domain.finalize(domain_rid(200)).unwrap();
    assert_eq!(statement.revision_id, domain_rid(200));

    domain.handoff(vec![domain_rid(200)]).unwrap();
    assert_eq!(domain.finalization().exposed_local_ids(), &domain_set(&[200]));
}

#[test]
fn snapshot_restores_working_and_exposure_bookkeeping_together() {
    let mut domain = LocalScalarDomain::from_causal(domain_base()).unwrap();
    domain.begin_epoch(domain_wid(1), b"first".to_vec()).unwrap();
    domain.update_pending(b"durable-latest".to_vec()).unwrap();
    domain.seal_local(domain_rid(200)).unwrap();
    domain.finalize(domain_rid(200)).unwrap();
    domain.handoff(vec![domain_rid(200)]).unwrap();

    let restored = LocalScalarDomain::restore(domain.snapshot()).unwrap();

    assert_eq!(restored, domain);
    assert_eq!(
        restored.working_value().map(|v| v.as_slice()),
        Some(&b"durable-latest"[..])
    );
    assert!(restored.finalization().exposed_local_ids().contains(&domain_rid(200)));
}

#[test]
fn restore_refuses_exposure_of_an_unregistered_revision() {
    let mut domain = LocalScalarDomain::from_causal(domain_base()).unwrap();
    domain.begin_epoch(domain_wid(1), b"local".to_vec()).unwrap();
    domain.seal_local(domain_rid(200)).unwrap();
    let mut snapshot = domain.snapshot();
    snapshot.finalization.exposed_local_ids = domain_set(&[100]);
    assert!(LocalScalarDomain::restore(snapshot).is_err());
}

#[test]
fn revision_sealed_before_a_refused_merge_is_still_registered_as_local() {
    let mut domain = LocalScalarDomain::from_causal(domain_base()).unwrap();
    domain.begin_epoch(domain_wid(1), b"local-draft".to_vec()).unwrap();

    // The remote holds a different statement under the seal identity, so the
    // merge after sealing is refused.
    let mut remote = domain_base();
    remote.assign(domain_rid(50), b"remote-under-same-id".to_vec()).unwrap();

    assert!(domain.observe_remote(&remote, Some(domain_rid(50))).is_err());
    assert!(domain.causal().revision(domain_rid(50)).is_some());
    assert!(domain.pending().is_none());
    assert!(domain.finalization().local_revision_ids().contains(&domain_rid(50)));
}
