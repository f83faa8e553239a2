use apc::catchup::{observe_received_domain, RecoveryReceiveError};
use apc::domain::LocalScalarDomain;
use apc::id::{AtomId, RevisionId, WorkingEpochId, LOGICAL_ID_BYTES};
use apc::idset::RevisionSet;
use apc::recovery_set::{DomainKey, LocalScalarRecoveryState};
use apc::scalar::ScalarRegister;

fn rx_bytes(value: u64) -> [u8; LOGICAL_ID_BYTES] {
    let mut bytes = [0_u8; LOGICAL_ID_BYTES];
    bytes[LOGICAL_ID_BYTES - 8..].copy_from_slice(&value.to_be_bytes());
    bytes
}

fn rx_rid(value: u64) -> RevisionId {
    RevisionId::from_bytes(rx_bytes(value))
}

fn rx_wid(value: u64) -> WorkingEpochId {
    WorkingEpochId::from_bytes(rx_bytes(value))
}

fn rx_key(domain: &str) -> DomainKey {
    DomainKey::new(AtomId::from_bytes(rx_bytes(1)), domain.as_bytes().to_vec()).unwrap()
}

fn dirty_domain(base_revision: u64, epoch: u64, base: &str, draft: &str) -> LocalScalarDomain {
    let mut causal = ScalarRegister::new();
    causal.assign(rx_rid(base_revision), base.as_bytes().to_vec()).unwrap();
    let mut domain = LocalScalarDomain::from_causal(causal).unwrap();
    domain.begin_epoch(rx_wid(epoch), draft.as_bytes().to_vec()).unwrap();
    domain
}

fn remote_from_base(base_revision: u64, remote_revision: u64, base: &str, value: &str) -> ScalarRegister {
    let mut remote = ScalarRegister::new();
    remote.assign(rx_rid(base_revision), base.as_bytes().to_vec()).unwrap();
    remote.assign(rx_rid(remote_revision), value.as_bytes().to_vec()).unwrap();
    remote
}

fn two_dirty_domains() -> LocalScalarRecoveryState {
    LocalScalarRecoveryState::from_domains(vec![
        (rx_key("body"), dirty_domain(100, 1, "body-base", "body-draft").snapshot()),
        (rx_key("title"), dirty_domain(300, 2, "title-base", "title-draft").snapshot()),
    ])
    .unwrap()
}

#[test]
fn received_title_seals_only_title_and_preserves_dirty_body() {
    let recovery = two_dirty_domains();
    let original_body = recovery.get(&rx_key("body")).unwrap().clone();
    let remote_title = remote_from_base(300, 900, "title-base", "remote-title");

    let (observed, sealed) =
        observe_received_domain(&recovery, &rx_key("title"), &remote_title, Some(rx_rid(400))).unwrap();
    let sealed = sealed.unwrap();
    assert_eq!(sealed.id, rx_rid(400));
    assert_eq!(sealed.parents, RevisionSet::from_ids(vec![rx_rid(300)]));

    assert_eq!(observed.get(&rx_key("body")), Some(&original_body));
    let body = observed.restore_domain(&rx_key("body")).unwrap().unwrap();
    assert_eq!(body.pending().unwrap().id, rx_wid(1));
    assert!(body.causal().revision(rx_rid(400)).is_none());
    assert!(body.causal().revision(rx_rid(900)).is_none());

    let title = observed.restore_domain(&rx_key("title")).unwrap().unwrap();
    assert!(title.pending().is_none());
    assert_eq!(title.causal().frontier_ids(), RevisionSet::from_ids(vec![rx_rid(400), rx_rid(900)]));
    assert!(!title.causal().is_ancestor(rx_rid(400), rx_rid(900)));
    assert!(!title.causal().is_ancestor(rx_rid(900), rx_rid(400)));

    // The given state is a copy the caller still holds unchanged.
    let untouched = recovery.restore_domain(&rx_key("title")).unwrap().unwrap();
    assert_eq!(untouched.pending().unwrap().id, rx_wid(2));
}

#[test]
fn received_state_for_unknown_domain_or_dirty_without_seal_is_refused() {
    let recovery = two_dirty_domains();
    let remote = remote_from_base(300, 900, "title-base", "remote-title");
    assert_eq!(
        observe_received_domain(&recovery, &rx_key("notes"), &remote, Some(rx_rid(400))).unwrap_err(),
        RecoveryReceiveError::MissingDomain
    );
    assert!(matches!(
        observe_received_domain(&recovery, &rx_key("title"), &remote, None).unwrap_err(),
        RecoveryReceiveError::Core(_)
    ));
}
