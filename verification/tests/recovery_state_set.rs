use apc::domain::{LocalScalarDomain, LocalScalarSnapshot};
use apc::error::CoreError;
use apc::id::{AtomId, RevisionId, WorkingEpochId, LOGICAL_ID_BYTES};
use apc::recovery_set::{
    decode_multi_scalar_recovery_state, encode_multi_scalar_recovery_state, DevelopmentMultiScalarTrustedStateCodec,
    DomainKey, LocalScalarRecoveryState, LocalScalarRecoveryStateError, MultiScalarTrustedStateCodecError,
    ProjectionError,
};
use apc::scalar::ScalarRegister;
use apc::trusted_state::{
    encode_local_scalar_snapshot, recover_scalar_domain, DevelopmentScalarTrustedStateCodec, ScalarRecoveryError,
    TrustedStateCodec, TrustedStateCodecError,
};

const SET_MAGIC: &[u8] = b"APCLSET1";

fn set_bytes(value: u64) -> [u8; LOGICAL_ID_BYTES] {
    let mut bytes = [0_u8; LOGICAL_ID_BYTES];
    bytes[LOGICAL_ID_BYTES - 8..].copy_from_slice(&value.to_be_bytes());
    bytes
}

fn set_atom(value: u64) -> AtomId {
    AtomId::from_bytes(set_bytes(value))
}

fn set_rid(value: u64) -> RevisionId {
    RevisionId::from_bytes(set_bytes(value))
}

fn set_wid(value: u64) -> WorkingEpochId {
    WorkingEpochId::from_bytes(set_bytes(value))
}

fn key(atom_value: u64, domain: &str) -> DomainKey {
    DomainKey::new(set_atom(atom_value), domain.as_bytes().to_vec()).unwrap()
}

fn base_snapshot(base_revision: u64, value: &str) -> LocalScalarSnapshot {
    let mut causal = ScalarRegister::new();
    causal.assign(set_rid(base_revision), value.as_bytes().to_vec()).unwrap();
    LocalScalarDomain::from_causal(causal).unwrap().snapshot()
}

fn pending_snapshot(base_revision: u64, epoch: u64, base: &str, draft: &str) -> LocalScalarSnapshot {
    let mut causal = ScalarRegister::new();
    causal.assign(set_rid(base_revision), base.as_bytes().to_vec()).unwrap();
    let mut domain = LocalScalarDomain::from_causal(causal).unwrap();
    domain.begin_epoch(set_wid(epoch), draft.as_bytes().to_vec()).unwrap();
    domain.snapshot()
}

fn exposed_snapshot(base_revision: u64, local_revision: u64, epoch: u64, base: &str, value: &str) -> LocalScalarSnapshot {
    let mut causal = ScalarRegister::new();
    causal.assign(set_rid(base_revision), base.as_bytes().to_vec()).unwrap();
    let mut domain = LocalScalarDomain::from_causal(causal).unwrap();
    domain.begin_epoch(set_wid(epoch), value.as_bytes().to_vec()).unwrap();
    domain.seal_local(set_rid(local_revision)).unwrap();
    domain.finalize(set_rid(local_revision)).unwrap();
    domain.handoff(vec![set_rid(local_revision)]).unwrap();
    domain.snapshot()
}

fn push_len(out: &mut Vec<u8>, len: usize) {
    out.extend_from_slice(&(len as u64).to_be_bytes());
}

fn push_bytes(out: &mut Vec<u8>, bytes: &[u8]) {
    push_len(out, bytes.len());
    out.extend_from_slice(bytes);
}

fn set_header(count: usize) -> Vec<u8> {
    let mut encoded = Vec::new();
    encoded.extend_from_slice(SET_MAGIC);
    encoded.extend_from_slice(&1_u16.to_be_bytes());
    push_len(&mut encoded, count);
    encoded
}

#[test]
fn deterministic_round_trip_preserves_independent_domain_recovery_state() {
    let body = key(1, "body");
    let title = key(1, "title");
    let state = LocalScalarRecoveryState::from_domains(vec![
        (body.clone(), exposed_snapshot(100, 200, 1, "body-base", "body-local")),
        (title.clone(), pending_snapshot(300, 2, "title-base", "title-draft")),
    ])
    .unwrap();

    let first = encode_multi_scalar_recovery_state(&state).unwrap();
    let second = encode_multi_scalar_recovery_state(&state).unwrap();
    assert_eq!(first, second);

    let decoded = decode_multi_scalar_recovery_state(&first).unwrap();
    assert_eq!(decoded, state);
    assert!(decoded
        .restore_domain(&body)
        .unwrap()
        .unwrap()
        .finalization()
        .exposed_local_ids()
        .contains(&set_rid(200)));
    assert_eq!(
        decoded.restore_domain(&title).unwrap().unwrap().pending().unwrap().id,
        set_wid(2)
    );
}

#[test]
fn replacing_one_domain_does_not_mutate_another_domain() {
    let body = key(1, "body");
    let title = key(1, "title");
    let title_snapshot = pending_snapshot(300, 2, "title-base", "title-draft");
    let mut state = LocalScalarRecoveryState::from_domains(vec![
        (body.clone(), base_snapshot(100, "body-base")),
        (title.clone(), title_snapshot.clone()),
    ])
    .unwrap();

    state
        .replace_domain(body, pending_snapshot(100, 9, "body-base", "body-draft"))
        .unwrap();

    assert_eq!(state.get(&title), Some(&title_snapshot));
}

#[test]
fn canonical_encoding_does_not_depend_on_insertion_order() {
    let body = key(1, "body");
    let title = key(1, "title");
    let body_snapshot = base_snapshot(100, "body");
    let title_snapshot = base_snapshot(200, "title");

    let mut left = LocalScalarRecoveryState::new();
    left.insert_new(body.clone(), body_snapshot.clone()).unwrap();
    left.insert_new(title.clone(), title_snapshot.clone()).unwrap();

    let mut right = LocalScalarRecoveryState::new();
    right.insert_new(title, title_snapshot).unwrap();
    right.insert_new(body, body_snapshot).unwrap();

    assert_eq!(
        encode_multi_scalar_recovery_state(&left).unwrap(),
        encode_multi_scalar_recovery_state(&right).unwrap()
    );
}

#[test]
fn duplicate_domain_is_rejected_by_container_and_decoder() {
    let domain = key(1, "body");
    let snapshot = base_snapshot(100, "base");
    let mut state = LocalScalarRecoveryState::new();
    state.insert_new(domain.clone(), snapshot.clone()).unwrap();
    assert!(matches!(
        state.insert_new(domain.clone(), snapshot.clone()),
        Err(LocalScalarRecoveryStateError::DuplicateDomain)
    ));

    let scalar = encode_local_scalar_snapshot(&snapshot).unwrap();
    let mut encoded = set_header(2);
    for _ in 0..2 {
        encoded.extend_from_slice(domain.atom_id().as_bytes());
        push_bytes(&mut encoded, domain.domain());
        push_bytes(&mut encoded, &scalar);
    }

    assert!(matches!(
        decode_multi_scalar_recovery_state(&encoded),
        Err(MultiScalarTrustedStateCodecError::DuplicateDomain)
    ));
}

#[test]
fn invalid_domain_and_nested_scalar_fail_closed() {
    let snapshot = base_snapshot(100, "base");
    let scalar = encode_local_scalar_snapshot(&snapshot).unwrap();

    let mut empty_domain = set_header(1);
    empty_domain.extend_from_slice(set_atom(1).as_bytes());
    push_bytes(&mut empty_domain, &[]);
    push_bytes(&mut empty_domain, &scalar);
    assert!(matches!(
        decode_multi_scalar_recovery_state(&empty_domain),
        Err(MultiScalarTrustedStateCodecError::Domain(ProjectionError::EmptyDomainIdentifier))
    ));

    let mut bad_scalar = set_header(1);
    bad_scalar.extend_from_slice(set_atom(1).as_bytes());
    push_bytes(&mut bad_scalar, b"body");
    push_bytes(&mut bad_scalar, &[0]);
    assert!(matches!(
        decode_multi_scalar_recovery_state(&bad_scalar),
        Err(MultiScalarTrustedStateCodecError::Scalar(TrustedStateCodecError::UnexpectedEof))
    ));
}

#[test]
fn empty_domain_name_is_refused_by_the_key() {
    assert_eq!(
        DomainKey::new(set_atom(1), Vec::new()).unwrap_err(),
        ProjectionError::EmptyDomainIdentifier
    );
    let k = key(5, "notes");
    assert_eq!(k.atom_id(), set_atom(5));
    assert_eq!(k.domain(), b"notes");
}

#[test]
fn domains_are_listed_in_canonical_key_order() {
    let mut state = LocalScalarRecoveryState::new();
    state.insert_new(key(2, "a"), base_snapshot(1, "x")).unwrap();
    state.insert_new(key(1, "title"), base_snapshot(2, "y")).unwrap();
    state.insert_new(key(1, "body"), base_snapshot(3, "z")).unwrap();
    let listed: Vec<(u64, Vec<u8>)> = state
        .domains()
        .iter()
        .map(|(k, _)| (u64::from_be_bytes(k.atom_id().as_bytes()[24..].try_into().unwrap()), k.domain().to_vec()))
        .collect();
    assert_eq!(
        listed,
        vec![(1, b"body".to_vec()), (1, b"title".to_vec()), (2, b"a".to_vec())]
    );
    assert_eq!(state.len(), 3);
    assert!(!state.is_empty());
    assert_eq!(state.restore_domain(&key(9, "none")).unwrap(), None);
}

#[test]
fn inconsistent_images_are_refused_by_the_container() {
    let mut snapshot = base_snapshot(100, "base");
    snapshot.finalization.exposed_local_ids = apc::idset::RevisionSet::from_ids(vec![set_rid(100)]);
    let mut state = LocalScalarRecoveryState::new();
    assert!(matches!(
        state.insert_new(key(1, "body"), snapshot.clone()),
        Err(LocalScalarRecoveryStateError::Core(CoreError::InvalidFinalizationSnapshot))
    ));
    assert!(state.is_empty());
    assert!(LocalScalarRecoveryState::from_domains(vec![(key(1, "body"), snapshot)]).is_err());
    assert!(matches!(
        LocalScalarRecoveryState::from_domains(vec![
            (key(1, "body"), base_snapshot(1, "a")),
            (key(1, "body"), base_snapshot(2, "b")),
        ]),
        Err(LocalScalarRecoveryStateError::DuplicateDomain)
    ));
}

#[test]
fn multi_codec_frames_and_refuses_trailing_bytes() {
    let state = LocalScalarRecoveryState::from_domains(vec![(key(1, "body"), base_snapshot(1, "a"))]).unwrap();
    let codec = DevelopmentMultiScalarTrustedStateCodec;
    let encoded = codec.encode(&state).unwrap();
    assert_eq!(&encoded[..8], SET_MAGIC);
    assert_eq!(codec.decode(&encoded).unwrap(), state);

    let mut trailing = encoded.clone();
    trailing.push(0);
    assert!(matches!(
        decode_multi_scalar_recovery_state(&trailing),
        Err(MultiScalarTrustedStateCodecError::TrailingBytes)
    ));
    let mut bad_version = encoded.clone();
    bad_version[8..10].copy_from_slice(&3_u16.to_be_bytes());
    assert!(matches!(
        decode_multi_scalar_recovery_state(&bad_version),
        Err(MultiScalarTrustedStateCodecError::UnsupportedVersion { version: 3 })
    ));
    assert!(matches!(
        decode_multi_scalar_recovery_state(&encoded[..5]),
        Err(MultiScalarTrustedStateCodecError::UnexpectedEof)
    ));
    let empty = LocalScalarRecoveryState::new();
    assert_eq!(encode_multi_scalar_recovery_state(&empty).unwrap(), set_header(0));
}

#[test]
fn recovery_rebuilds_the_committed_domain() {
    let snapshot = exposed_snapshot(100, 200, 1, "base", "local");
    let bytes = encode_local_scalar_snapshot(&snapshot).unwrap();
    let codec = DevelopmentScalarTrustedStateCodec;
    let domain = recover_scalar_domain(&bytes, &codec).unwrap();
    assert_eq!(domain, LocalScalarDomain::restore(snapshot).unwrap());

    assert!(matches!(
        recover_scalar_domain(&bytes[..bytes.len() - 1], &codec),
        Err(ScalarRecoveryError::Codec(TrustedStateCodecError::UnexpectedEof))
    ));
}
