use apc::domain::LocalScalarDomain;
use apc::error::CoreError;
use apc::handoff::{
    select_handoff_closure, select_recovery_handoff, stage_recovery_handoff, HandoffSelectionError,
    RecoveryHandoffStageError, RecoverySelectionError,
};
use apc::id::{AtomId, RevisionId, WorkingEpochId, LOGICAL_ID_BYTES};
use apc::idset::RevisionSet;
use apc::recovery_set::{DomainKey, LocalScalarRecoveryState};
use apc::scalar::ScalarRegister;

fn sel_bytes(value: u64) -> [u8; LOGICAL_ID_BYTES] {
    let mut bytes = [0_u8; LOGICAL_ID_BYTES];
    bytes[LOGICAL_ID_BYTES - 8..].copy_from_slice(&value.to_be_bytes());
    bytes
}

fn sel_rid(value: u64) -> RevisionId {
    RevisionId::from_bytes(sel_bytes(value))
}

fn sel_wid(value: u64) -> WorkingEpochId {
    WorkingEpochId::from_bytes(sel_bytes(value))
}

fn sel_key(name: &str) -> DomainKey {
    DomainKey::new(AtomId::from_bytes(sel_bytes(1)), name.as_bytes().to_vec()).unwrap()
}

fn prepared_bytes_local(finalize: bool) -> LocalScalarDomain {
    let mut causal = ScalarRegister::new();
    causal.assign(sel_rid(100), b"base".to_vec()).unwrap();
    let mut domain = LocalScalarDomain::from_causal(causal).unwrap();
    domain.begin_epoch(sel_wid(1), b"local".to_vec()).unwrap();
    domain.seal_local(sel_rid(200)).unwrap();
    if finalize {
        domain.finalize(sel_rid(200)).unwrap();
    }
    domain
}

#[test]
fn protected_builder_carries_only_selected_dependency_closure() {
    let mut domain = prepared_bytes_local(true);
    let mut remote = ScalarRegister::new();
    remote.assign(sel_rid(100), b"base".to_vec()).unwrap();
    remote.assign(sel_rid(900), b"unrelated-remote".to_vec()).unwrap();
    domain.observe_remote(&remote, None).unwrap();

    let (ids, published) = select_handoff_closure(&domain, vec![sel_rid(200)]).unwrap();
    assert_eq!(ids, RevisionSet::from_ids(vec![sel_rid(200)]));
    assert!(published.revision(sel_rid(100)).is_some());
    assert!(published.revision(sel_rid(200)).is_some());
    assert!(published.revision(sel_rid(900)).is_none());
    assert_eq!(published.len(), 2);
}

#[test]
fn protected_builder_rejects_unfinalized_local_dependency_before_encryption() {
    let domain = prepared_bytes_local(false);
    let error = select_handoff_closure(&domain, vec![sel_rid(200)]).unwrap_err();
    assert_eq!(
        error,
        HandoffSelectionError::Core(CoreError::HandoffRequiresFinalizedRevision { revision_id: sel_rid(200) })
    );
}

#[test]
fn protected_builder_rejects_empty_revision_set() {
    let domain = prepared_bytes_local(true);
    assert_eq!(
        select_handoff_closure(&domain, Vec::new()).unwrap_err(),
        HandoffSelectionError::EmptyRevisionSet
    );
}

#[test]
fn selection_does_not_expose_anything_in_the_domain() {
    let domain = prepared_bytes_local(true);
    let _ = select_handoff_closure(&domain, vec![sel_rid(200)]).unwrap();
    assert!(domain.finalization().exposed_local_ids().is_empty());
    assert_eq!(
        select_handoff_closure(&domain, vec![sel_rid(777)]).unwrap_err(),
        HandoffSelectionError::Core(CoreError::UnknownRevision { revision_id: sel_rid(777) })
    );
}

#[test]
fn multi_domain_selection_projects_each_selected_closure() {
    let mut title_causal = ScalarRegister::new();
    title_causal.assign(sel_rid(300), b"title-base".to_vec()).unwrap();
    let title = LocalScalarDomain::from_causal(title_causal).unwrap();
    let recovery = LocalScalarRecoveryState::from_domains(vec![
        (sel_key("body"), prepared_bytes_local(true).snapshot()),
        (sel_key("title"), title.snapshot()),
    ])
    .unwrap();

    let projected = select_recovery_handoff(&recovery, &vec![(sel_key("body"), vec![sel_rid(200)])]).unwrap();
    assert_eq!(projected.len(), 1);
    assert_eq!(projected[0].0, sel_key("body"));
    assert_eq!(projected[0].1.len(), 2);

    assert_eq!(select_recovery_handoff(&recovery, &Vec::new()).unwrap_err(), RecoverySelectionError::EmptySelection);
    assert_eq!(
        select_recovery_handoff(&recovery, &vec![(sel_key("title"), Vec::new())]).unwrap_err(),
        RecoverySelectionError::EmptyRevisionSet { domain_key: sel_key("title") }
    );
    assert_eq!(
        select_recovery_handoff(&recovery, &vec![(sel_key("notes"), vec![sel_rid(1)])]).unwrap_err(),
        RecoverySelectionError::MissingDomain { domain_key: sel_key("notes") }
    );
    assert_eq!(
        select_recovery_handoff(&recovery, &vec![(sel_key("body"), vec![sel_rid(100)])]).unwrap().len(),
        1
    );
}

fn two_domain_recovery(finalize_body: bool) -> LocalScalarRecoveryState {
    let mut title_causal = ScalarRegister::new();
    title_causal.assign(sel_rid(300), b"title-base".to_vec()).unwrap();
    let title = LocalScalarDomain::from_causal(title_causal).unwrap();
    LocalScalarRecoveryState::from_domains(vec![
        (sel_key("body"), prepared_bytes_local(finalize_body).snapshot()),
        (sel_key("title"), title.snapshot()),
    ])
    .unwrap()
}

#[test]
fn staged_handoff_records_exposure_only_in_the_selected_domain() {
    let recovery = two_domain_recovery(true);
    let staged = stage_recovery_handoff(&recovery, &vec![(sel_key("body"), vec![sel_rid(200)])]).unwrap();

    let body = staged.restore_domain(&sel_key("body")).unwrap().unwrap();
    assert!(body.finalization().exposed_local_ids().contains(&sel_rid(200)));
    assert!(body.finalization().handed_off_local_ids().contains(&sel_rid(200)));
    assert_eq!(staged.get(&sel_key("title")), recovery.get(&sel_key("title")));

    let original_body = recovery.restore_domain(&sel_key("body")).unwrap().unwrap();
    assert!(original_body.finalization().exposed_local_ids().is_empty());
}

#[test]
fn staged_handoff_refuses_unknown_domain_and_unfinalized_dependency() {
    let recovery = two_domain_recovery(true);
    assert_eq!(
        stage_recovery_handoff(&recovery, &vec![(sel_key("notes"), vec![sel_rid(1)])]).unwrap_err(),
        RecoveryHandoffStageError::MissingDomain { domain_key: sel_key("notes") }
    );

    let unfinalized = two_domain_recovery(false);
    assert_eq!(
        stage_recovery_handoff(&unfinalized, &vec![(sel_key("body"), vec![sel_rid(200)])]).unwrap_err(),
        RecoveryHandoffStageError::Core(CoreError::HandoffRequiresFinalizedRevision { revision_id: sel_rid(200) })
    );
}
