use apc::cycle::{next_resume_step, ResumeCycleStep};
use apc::id::{AtomId, RevisionId, LOGICAL_ID_BYTES};
use apc::receive::{
    check_single_part, first_occurrences, select_expected_domain, PendingAssembly, PendingPublicationRefusal,
    SingleObjectRefusal,
};
use apc::recovery_set::DomainKey;
use apc::resume::PublicationId;
use apc::scalar::ScalarRegister;

fn recv_bytes(value: u64) -> [u8; LOGICAL_ID_BYTES] {
    let mut bytes = [0_u8; LOGICAL_ID_BYTES];
    bytes[LOGICAL_ID_BYTES - 8..].copy_from_slice(&value.to_be_bytes());
    bytes
}

fn recv_pid(value: u64) -> PublicationId {
    PublicationId::from_bytes(recv_bytes(value))
}

fn recv_key(domain: &str) -> DomainKey {
    DomainKey::new(AtomId::from_bytes(recv_bytes(1)), domain.as_bytes().to_vec()).unwrap()
}

fn register(id: u64, value: &[u8]) -> ScalarRegister {
    let mut r = ScalarRegister::new();
    r.assign(RevisionId::from_bytes(recv_bytes(id)), value.to_vec()).unwrap();
    r
}

#[test]
fn repeated_wire_objects_are_looked_at_once_in_given_order() {
    let objects = vec![b"b".to_vec(), b"a".to_vec(), b"b".to_vec(), Vec::new(), b"a".to_vec(), Vec::new()];
    assert_eq!(first_occurrences(&objects), vec![0, 1, 3]);
    assert_eq!(first_occurrences(&Vec::new()), Vec::<usize>::new());
}

#[test]
fn single_object_receive_refuses_multipart_parts() {
    assert_eq!(check_single_part(0, 1), Ok(()));
    assert_eq!(check_single_part(0, 2), Err(SingleObjectRefusal::MultipartUnsupported));
    assert_eq!(check_single_part(1, 2), Err(SingleObjectRefusal::MultipartUnsupported));
    assert_eq!(check_single_part(1, 1), Err(SingleObjectRefusal::MultipartUnsupported));
}

#[test]
fn single_object_must_carry_exactly_the_expected_domain() {
    let expected = recv_key("body");
    let selected = select_expected_domain(vec![(recv_key("body"), register(10, b"v"))], &expected).unwrap();
    assert_eq!(selected, register(10, b"v"));

    let other = select_expected_domain(vec![(recv_key("title"), register(10, b"v"))], &expected);
    assert_eq!(other.unwrap_err(), SingleObjectRefusal::MissingExpectedDomain);

    let two = select_expected_domain(
        vec![(recv_key("body"), register(10, b"v")), (recv_key("title"), register(11, b"w"))],
        &expected,
    );
    assert_eq!(two.unwrap_err(), SingleObjectRefusal::UnexpectedDomainCount { count: 2 });

    let none = select_expected_domain(Vec::new(), &expected);
    assert_eq!(none.unwrap_err(), SingleObjectRefusal::UnexpectedDomainCount { count: 0 });
}

#[test]
fn pending_publication_assembles_exactly_once() {
    assert_eq!(PendingAssembly::start(recv_pid(7), 0).err(), Some(PendingPublicationRefusal::EmptyObjectSet));

    let mut assembly = PendingAssembly::start(recv_pid(7), 2).unwrap();
    assert_eq!(assembly.accept_part(recv_pid(7)), Ok(()));
    assert_eq!(
        assembly.accept_part(recv_pid(8)),
        Err(PendingPublicationRefusal::PublicationIdMismatch { expected: recv_pid(7), actual: recv_pid(8) })
    );
    assert_eq!(assembly.finish(0), Err(PendingPublicationRefusal::IncompleteMultipartPublication));
    assert_eq!(assembly.record_completion(), Ok(()));
    assert_eq!(assembly.finish(1), Err(PendingPublicationRefusal::IncompleteMultipartPublication));
    assert_eq!(assembly.finish(0), Ok(()));
    assert_eq!(assembly.record_completion(), Err(PendingPublicationRefusal::MultipleCompletedPublications));
}

#[test]
fn resume_cycle_runs_one_follow_up_only_after_a_conflict() {
    assert_eq!(next_resume_step(ResumeCycleStep::Initial, false), ResumeCycleStep::Done);
    let follow_up = next_resume_step(ResumeCycleStep::Initial, true);
    assert_eq!(follow_up, ResumeCycleStep::FollowUp);
    assert_eq!(next_resume_step(follow_up, true), ResumeCycleStep::Done);
    assert_eq!(next_resume_step(follow_up, false), ResumeCycleStep::Done);
    assert_eq!(next_resume_step(ResumeCycleStep::Done, true), ResumeCycleStep::Done);
}
