use apc::catchup::{apply_remote_projection, merge_remote_states};
use apc::domain::LocalScalarDomain;
use apc::error::CoreError;
use apc::id::{AtomId, RevisionId, WorkingEpochId, LOGICAL_ID_BYTES};
use apc::idset::RevisionSet;
use apc::recovery_set::{DomainKey, LocalScalarRecoveryState};
use apc::resume::{
    check_single_outbox, plan_outbox_resume, projection_is_observed, CatchUpKind, OutboxAction, PendingPublication,
    PublicationId, SingleResumeRefusal,
};
use apc::scalar::{ScalarRegister, ScalarRevision};

fn plan_bytes(value: u64) -> [u8; LOGICAL_ID_BYTES] {
    let mut bytes = [0_u8; LOGICAL_ID_BYTES];
    bytes[LOGICAL_ID_BYTES - 8..].copy_from_slice(&value.to_be_bytes());
    bytes
}

fn pid(value: u64) -> PublicationId {
    PublicationId::from_bytes(plan_bytes(value))
}

fn plan_rid(value: u64) -> RevisionId {
    RevisionId::from_bytes(plan_bytes(value))
}

fn plan_wid(value: u64) -> WorkingEpochId {
    WorkingEpochId::from_bytes(plan_bytes(value))
}

fn plan_key(domain: &str) -> DomainKey {
    DomainKey::new(AtomId::from_bytes(plan_bytes(1)), domain.as_bytes().to_vec()).unwrap()
}

fn plan_ids(ids: &[u64]) -> RevisionSet {
    RevisionSet::from_ids(ids.iter().map(|id| plan_rid(*id)).collect())
}

fn pending(id: u64, current: bool, observed: bool) -> PendingPublication {
    PendingPublication { publication_id: pid(id), targets_current_cursor: current, observed_in_catch_up: observed }
}

#[test]
fn baseline_unavailable_blocks_every_publication() {
    let plan = plan_outbox_resume(CatchUpKind::BaselineUnavailable, &vec![pending(1, true, false)]);
    assert_eq!(plan.action, OutboxAction::BlockedByBaseline);
    assert!(plan.observed_reconciled.is_empty());
}

#[test]
fn empty_outbox_has_nothing_to_do() {
    let plan = plan_outbox_resume(CatchUpKind::Applied, &Vec::new());
    assert_eq!(plan.action, OutboxAction::NothingPending);
    assert!(plan.observed_reconciled.is_empty());
}

#[test]
fn same_cursor_pending_set_is_published_as_one_batch() {
    let plan = plan_outbox_resume(CatchUpKind::UpToDate, &vec![pending(2, true, false), pending(1, true, false)]);
    assert_eq!(plan.action, OutboxAction::Publish { publication_ids: vec![pid(2), pid(1)] });
    assert!(plan.observed_reconciled.is_empty());
}

#[test]
fn unresolved_stale_publication_blocks_the_current_set() {
    let plan = plan_outbox_resume(CatchUpKind::Applied, &vec![pending(1, false, false), pending(2, true, false)]);
    assert_eq!(plan.action, OutboxAction::NeedsRebase { publication_ids: vec![pid(1)] });
}

#[test]
fn observed_stale_publications_are_reconciled_without_publishing() {
    let plan = plan_outbox_resume(CatchUpKind::Applied, &vec![pending(1, false, true), pending(3, false, true)]);
    assert_eq!(plan.observed_reconciled, vec![pid(1), pid(3)]);
    assert_eq!(plan.action, OutboxAction::NothingPending);

    let plan = plan_outbox_resume(CatchUpKind::Applied, &vec![pending(1, false, true), pending(2, true, false)]);
    assert_eq!(plan.observed_reconciled, vec![pid(1)]);
    assert_eq!(plan.action, OutboxAction::Publish { publication_ids: vec![pid(2)] });
}

#[test]
fn evidence_counts_only_after_an_applied_catch_up() {
    let plan = plan_outbox_resume(CatchUpKind::UpToDate, &vec![pending(1, false, true)]);
    assert!(plan.observed_reconciled.is_empty());
    assert_eq!(plan.action, OutboxAction::NeedsRebase { publication_ids: vec![pid(1)] });
}

#[test]
fn single_domain_resume_refuses_several_pending_publications() {
    assert_eq!(check_single_outbox(0), Ok(()));
    assert_eq!(check_single_outbox(1), Ok(()));
    assert_eq!(
        check_single_outbox(2),
        Err(SingleResumeRefusal::MultiplePendingOutboxUnsupported { count: 2 })
    );
}

#[test]
fn partial_domain_evidence_is_not_proof() {
    let projection = vec![(plan_key("body"), plan_ids(&[1, 2])), (plan_key("title"), plan_ids(&[3]))];
    let full = vec![(plan_key("title"), plan_ids(&[3, 9])), (plan_key("body"), plan_ids(&[1, 2]))];
    assert!(projection_is_observed(&projection, &full));

    let partial = vec![(plan_key("body"), plan_ids(&[1])), (plan_key("title"), plan_ids(&[3]))];
    assert!(!projection_is_observed(&projection, &partial));

    let missing_domain = vec![(plan_key("body"), plan_ids(&[1, 2]))];
    assert!(!projection_is_observed(&projection, &missing_domain));
    assert!(projection_is_observed(&Vec::new(), &missing_domain));
}

fn plan_register(id: u64, value: &str, parents: &[u64]) -> ScalarRevision {
    ScalarRevision::new(plan_rid(id), value.as_bytes().to_vec(), plan_ids(parents))
}

#[test]
fn remote_states_of_one_pass_are_merged_first() {
    let a = ScalarRegister::from_revisions(vec![plan_register(1, "base", &[]), plan_register(2, "left", &[1])]).unwrap();
    let b = ScalarRegister::from_revisions(vec![plan_register(1, "base", &[]), plan_register(3, "right", &[1])]).unwrap();
    let merged = merge_remote_states(&vec![a.clone(), b.clone()]).unwrap();
    assert_eq!(merged.frontier_ids(), plan_ids(&[2, 3]));
    assert_eq!(merge_remote_states(&vec![a.clone()]).unwrap(), a);

    let conflicting = ScalarRegister::from_revisions(vec![plan_register(1, "other", &[])]).unwrap();
    assert_eq!(
        merge_remote_states(&vec![a, b, conflicting]).unwrap_err(),
        CoreError::DuplicateRevisionConflict { revision_id: plan_rid(1) }
    );
}

#[test]
fn observing_title_seals_only_title_and_adds_unknown_domains() {
    let mut causal = ScalarRegister::new();
    causal.assign(plan_rid(100), b"body-base".to_vec()).unwrap();
    let mut body = LocalScalarDomain::from_causal(causal).unwrap();
    body.begin_epoch(plan_wid(1), b"body-draft".to_vec()).unwrap();

    let mut title_causal = ScalarRegister::new();
    title_causal.assign(plan_rid(300), b"title-base".to_vec()).unwrap();
    let mut title = LocalScalarDomain::from_causal(title_causal.clone()).unwrap();
    title.begin_epoch(plan_wid(2), b"title-draft".to_vec()).unwrap();

    let recovery = LocalScalarRecoveryState::from_domains(vec![
        (plan_key("body"), body.snapshot()),
        (plan_key("title"), title.snapshot()),
    ])
    .unwrap();

    let mut remote_title = title_causal;
    remote_title.assign(plan_rid(900), b"remote-title".to_vec()).unwrap();
    let mut notes = ScalarRegister::new();
    notes.assign(plan_rid(500), b"notes".to_vec()).unwrap();

    let observed = apply_remote_projection(
        &recovery,
        &vec![(plan_key("notes"), notes), (plan_key("title"), remote_title)],
        &vec![(plan_key("title"), plan_rid(400))],
    )
    .unwrap();

    assert_eq!(observed.sealed_local.len(), 1);
    assert_eq!(observed.sealed_local[0].0, plan_key("title"));
    assert_eq!(observed.sealed_local[0].1.id, plan_rid(400));
    assert_eq!(observed.observed_revision_ids[1].1, plan_ids(&[300, 900]));

    let body_after = observed.recovery.restore_domain(&plan_key("body")).unwrap().unwrap();
    assert_eq!(body_after, LocalScalarDomain::restore(body.snapshot()).unwrap());
    let title_after = observed.recovery.restore_domain(&plan_key("title")).unwrap().unwrap();
    assert_eq!(title_after.causal().frontier_ids(), plan_ids(&[400, 900]));
    assert!(title_after.pending().is_none());
    let notes_after = observed.recovery.restore_domain(&plan_key("notes")).unwrap().unwrap();
    assert!(notes_after.finalization().local_revision_ids().is_empty());

    let refused = apply_remote_projection(&recovery, &vec![(plan_key("body"), ScalarRegister::new())], &Vec::new());
    assert_eq!(refused.unwrap_err(), CoreError::DirtyObservationRequiresSeal);
}
