use apc::candidate::{
    candidate_file_name, next_candidate_id, root_manifest_candidate, valid_candidate_name, FsCandidate,
    FsStorageError,
};
use apc::probe::{
    check_publish_objects, decode_remote_state, encode_remote_state, probe_fetch, probe_publish, ProbeFetch, ProbePublish,
    ProbeRemoteState, ProbeTransportError, PROBE_ACCEPTED_HEAD, PROBE_INITIAL_HEAD,
};

#[test]
fn candidate_names_are_fixed_width_decimal() {
    assert_eq!(candidate_file_name(0), b"candidate-00000000000000000000.bin".to_vec());
    assert_eq!(candidate_file_name(1), b"candidate-00000000000000000001.bin".to_vec());
    assert_eq!(
        candidate_file_name(u64::MAX),
        b"candidate-18446744073709551615.bin".to_vec()
    );
}

#[test]
fn candidate_name_validation() {
    assert!(valid_candidate_name("candidate-00000000000000000042.bin"));
    assert!(!valid_candidate_name("candidate-0000000000000000042.bin"));
    assert!(!valid_candidate_name("candidate-0000000000000000004x.bin"));
    assert!(!valid_candidate_name("../escape"));
    assert!(!valid_candidate_name("candidate-00000000000000000042.bin.tmp"));
}

#[test]
fn candidate_counter_recovers_without_clock_ordering() {
    assert_eq!(next_candidate_id(&Vec::new()).unwrap(), 0);
    let names = vec![
        "candidate-00000000000000000000.bin".to_owned(),
        "unrelated.txt".to_owned(),
        "candidate-00000000000000000007.bin".to_owned(),
        "candidate-00000000000000000003.bin".to_owned(),
    ];
    assert_eq!(next_candidate_id(&names).unwrap(), 8);
}

#[test]
fn candidate_counter_refuses_an_exhausted_number_space() {
    let names = vec!["candidate-18446744073709551615.bin".to_owned()];
    assert!(matches!(
        next_candidate_id(&names),
        Err(FsStorageError::CandidateIdExhausted)
    ));
}

#[test]
fn root_manifest_must_name_a_candidate() {
    assert_eq!(
        root_manifest_candidate("candidate-00000000000000000005.bin\n").unwrap(),
        b"candidate-00000000000000000005.bin".to_vec()
    );
    assert_eq!(
        root_manifest_candidate("candidate-00000000000000000005.bin").unwrap(),
        b"candidate-00000000000000000005.bin".to_vec()
    );
    assert!(matches!(
        root_manifest_candidate("../escape\n"),
        Err(FsStorageError::InvalidRootManifest)
    ));
    assert!(matches!(root_manifest_candidate(""), Err(FsStorageError::InvalidRootManifest)));
}

#[test]
fn candidate_handle_keeps_its_file_name() {
    let candidate = FsCandidate::from_file_name("candidate-00000000000000000009.bin".to_owned());
    assert_eq!(candidate.file_name(), "candidate-00000000000000000009.bin");
}

#[test]
fn remote_state_round_trips() {
    let state = ProbeRemoteState {
        head: 7,
        publish_count: 2,
        objects: vec![b"first".to_vec(), b"second".to_vec()],
    };
    let encoded = encode_remote_state(&state).unwrap();
    assert_eq!(&encoded[..8], b"APCARMT1");
    assert_eq!(decode_remote_state(&encoded).unwrap(), state);

    let initial = ProbeRemoteState::default();
    assert_eq!(initial.head, PROBE_INITIAL_HEAD);
    let encoded = encode_remote_state(&initial).unwrap();
    assert_eq!(encoded.len(), 32);
    assert_eq!(decode_remote_state(&encoded).unwrap(), initial);
}

#[test]
fn malformed_remote_state_is_refused_with_its_reason() {
    let state = ProbeRemoteState { head: 3, publish_count: 1, objects: vec![b"x".to_vec()] };
    let encoded = encode_remote_state(&state).unwrap();

    let mut trailing = encoded.clone();
    trailing.push(0);
    match decode_remote_state(&trailing) {
        Err(ProbeTransportError::InvalidState(message)) => {
            assert_eq!(message, "trailing remote-state bytes")
        }
        other => panic!("unexpected {other:?}"),
    }

    let mut bad_magic = encoded.clone();
    bad_magic[0] ^= 1;
    match decode_remote_state(&bad_magic) {
        Err(ProbeTransportError::InvalidState(message)) => {
            assert_eq!(message, "wrong remote-state magic")
        }
        other => panic!("unexpected {other:?}"),
    }

    match decode_remote_state(&encoded[..encoded.len() - 1]) {
        Err(ProbeTransportError::InvalidState(message)) => assert_eq!(message, "truncated object"),
        other => panic!("unexpected {other:?}"),
    }

    let empty = ProbeRemoteState { head: 3, publish_count: 1, objects: vec![Vec::new()] };
    let encoded = encode_remote_state(&empty).unwrap();
    match decode_remote_state(&encoded) {
        Err(ProbeTransportError::InvalidState(message)) => assert_eq!(message, "empty remote object"),
        other => panic!("unexpected {other:?}"),
    }
}

fn accepted_probe_state(current: &ProbeRemoteState, objects: &Vec<Vec<u8>>) -> ProbeRemoteState {
    match probe_publish(current, Some(current.head), objects).unwrap() {
        ProbePublish::Accepted { state } => state,
        ProbePublish::Conflict { .. } => panic!("expected acceptance"),
    }
}

#[test]
fn probe_publish_is_compare_and_set_on_the_head() {
    let initial = ProbeRemoteState::default();
    let objects = vec![b"wire-object".to_vec()];
    assert_eq!(
        probe_publish(&initial, Some(PROBE_INITIAL_HEAD + 5), &objects).unwrap(),
        ProbePublish::Conflict { current_head: PROBE_INITIAL_HEAD }
    );
    assert_eq!(
        probe_publish(&initial, None, &objects).unwrap(),
        ProbePublish::Conflict { current_head: PROBE_INITIAL_HEAD }
    );
    let accepted = accepted_probe_state(&initial, &objects);
    assert_eq!(
        accepted,
        ProbeRemoteState { head: PROBE_ACCEPTED_HEAD, publish_count: 1, objects: objects.clone() }
    );

    let at_max = ProbeRemoteState { head: u64::MAX, publish_count: 0, objects: Vec::new() };
    match probe_publish(&at_max, Some(u64::MAX), &objects) {
        Err(ProbeTransportError::InvalidState(msg)) => assert_eq!(msg, "head overflow"),
        other => panic!("unexpected {other:?}"),
    }
}

#[test]
fn probe_publish_refuses_missing_or_empty_objects() {
    assert!(check_publish_objects(&vec![b"a".to_vec(), b"b".to_vec()]).is_ok());
    for objects in [Vec::new(), vec![Vec::new()], vec![b"a".to_vec(), Vec::new()]] {
        match check_publish_objects(&objects) {
            Err(ProbeTransportError::InvalidState(msg)) => {
                assert_eq!(msg, "publish must contain non-empty opaque objects")
            }
            other => panic!("unexpected {other:?}"),
        }
    }
}

#[test]
fn lost_ack_is_recoverable_by_fetching_from_the_initial_head() {
    let objects = vec![b"protected-publication".to_vec()];
    let accepted = accepted_probe_state(&ProbeRemoteState::default(), &objects);

    assert_eq!(
        probe_fetch(accepted.clone(), Some(PROBE_INITIAL_HEAD)),
        ProbeFetch::Changed { head: PROBE_ACCEPTED_HEAD, objects }
    );
    assert_eq!(
        probe_fetch(accepted.clone(), Some(PROBE_ACCEPTED_HEAD)),
        ProbeFetch::UpToDate { head: PROBE_ACCEPTED_HEAD }
    );
    assert_eq!(probe_fetch(accepted.clone(), None), ProbeFetch::BaselineUnavailable { head: PROBE_ACCEPTED_HEAD });
    assert_eq!(
        probe_fetch(ProbeRemoteState::default(), Some(7)),
        ProbeFetch::BaselineUnavailable { head: PROBE_INITIAL_HEAD }
    );
}
