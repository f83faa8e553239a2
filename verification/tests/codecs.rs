use apc::domain::{LocalScalarDomain, LocalScalarSnapshot};
use apc::error::CoreError;
use apc::id::{RevisionId, WorkingEpochId, LOGICAL_ID_BYTES};
use apc::idset::RevisionSet;
use apc::scalar::ScalarRegister;
use apc::snapshot_codec::{self, SnapshotCodecError};
use apc::trusted_state::{self, DevelopmentScalarTrustedStateCodec, TrustedStateCodec, TrustedStateCodecError};
use apc::working::WorkingEpoch;

const CODEC_MAGIC_LEN: usize = 8;

fn codec_bytes(value: u64) -> [u8; LOGICAL_ID_BYTES] {
    let mut bytes = [0_u8; LOGICAL_ID_BYTES];
    bytes[LOGICAL_ID_BYTES - 8..].copy_from_slice(&value.to_be_bytes());
    bytes
}

fn codec_rid(value: u64) -> RevisionId {
    RevisionId::from_bytes(codec_bytes(value))
}

fn codec_wid(value: u64) -> WorkingEpochId {
    WorkingEpochId::from_bytes(codec_bytes(value))
}

fn exposed_snapshot() -> LocalScalarSnapshot {
    let mut causal = ScalarRegister::new();
    causal.assign(codec_rid(100), b"base".to_vec()).unwrap();
    let mut domain = LocalScalarDomain::from_causal(causal).unwrap();
    domain.begin_epoch(codec_wid(1), b"local".to_vec()).unwrap();
    domain.seal_local(codec_rid(200)).unwrap();
    domain.finalize(codec_rid(200)).unwrap();
    domain.handoff(vec![codec_rid(200)]).unwrap();
    domain.snapshot()
}

fn rich_snapshot() -> LocalScalarSnapshot {
    let mut causal = ScalarRegister::new();
    causal.assign(codec_rid(100), b"base".to_vec()).unwrap();
    let mut domain = LocalScalarDomain::from_causal(causal).unwrap();

    domain.begin_epoch(codec_wid(1), b"local".to_vec()).unwrap();
    domain.seal_local(codec_rid(200)).unwrap();
    domain.finalize(codec_rid(200)).unwrap();
    domain.handoff(vec![codec_rid(200)]).unwrap();
    domain.begin_epoch(codec_wid(2), b"pending".to_vec()).unwrap();
    domain.update_pending(b"pending-latest".to_vec()).unwrap();
    domain.snapshot()
}

#[test]
fn deterministic_encoding_round_trips_exposure_and_finalization() {
    let snapshot = exposed_snapshot();
    let first = trusted_state::encode_local_scalar_snapshot(&snapshot).unwrap();
    let second = trusted_state::encode_local_scalar_snapshot(&snapshot).unwrap();

    assert_eq!(first, second);
    assert_eq!(trusted_state::decode_local_scalar_snapshot(&first).unwrap(), snapshot);
}

#[test]
fn pending_epoch_round_trips_with_original_observed_frontier() {
    let mut causal = ScalarRegister::new();
    causal.assign(codec_rid(100), b"base".to_vec()).unwrap();
    let mut domain = LocalScalarDomain::from_causal(causal).unwrap();
    domain.begin_epoch(codec_wid(9), b"draft".to_vec()).unwrap();
    domain.update_pending(b"latest-draft".to_vec()).unwrap();
    let snapshot = domain.snapshot();

    let decoded = trusted_state::decode_local_scalar_snapshot(
        &trusted_state::encode_local_scalar_snapshot(&snapshot).unwrap(),
    )
    .unwrap();
    assert_eq!(decoded, snapshot);
    assert_eq!(decoded.working.pending.unwrap().id, codec_wid(9));
}

#[test]
fn malformed_magic_version_truncation_and_trailing_bytes_fail_closed() {
    let encoded = trusted_state::encode_local_scalar_snapshot(&exposed_snapshot()).unwrap();

    let mut bad_magic = encoded.clone();
    bad_magic[0] ^= 1;
    assert_eq!(
        trusted_state::decode_local_scalar_snapshot(&bad_magic).unwrap_err(),
        TrustedStateCodecError::InvalidMagic
    );

    let mut bad_version = encoded.clone();
    bad_version[CODEC_MAGIC_LEN..CODEC_MAGIC_LEN + 2].copy_from_slice(&2_u16.to_be_bytes());
    assert_eq!(
        trusted_state::decode_local_scalar_snapshot(&bad_version).unwrap_err(),
        TrustedStateCodecError::UnsupportedVersion { version: 2 }
    );

    assert!(matches!(
        trusted_state::decode_local_scalar_snapshot(&encoded[..encoded.len() - 1]),
        Err(TrustedStateCodecError::UnexpectedEof)
    ));

    let mut trailing = encoded;
    trailing.push(0);
    assert_eq!(
        trusted_state::decode_local_scalar_snapshot(&trailing).unwrap_err(),
        TrustedStateCodecError::TrailingBytes
    );
}

#[test]
fn semantically_invalid_pending_frontier_is_rejected_before_encoding() {
    let mut snapshot = exposed_snapshot();
    snapshot.working.pending = Some(WorkingEpoch {
        id: codec_wid(10),
        value: b"forged".to_vec(),
        observed_frontier: RevisionSet::from_ids(vec![codec_rid(999)]),
    });

    assert!(matches!(
        trusted_state::encode_local_scalar_snapshot(&snapshot),
        Err(TrustedStateCodecError::Core(CoreError::InvalidWorkingSnapshot))
    ));
}

#[test]
fn development_codec_uses_the_recovery_image() {
    let codec = DevelopmentScalarTrustedStateCodec;
    let snapshot = rich_snapshot();
    let encoded = codec.encode(&snapshot).unwrap();
    assert_eq!(&encoded[..CODEC_MAGIC_LEN], b"APCLREC1");
    assert_eq!(encoded, trusted_state::encode_local_scalar_snapshot(&snapshot).unwrap());
    assert_eq!(codec.decode(&encoded).unwrap(), snapshot);
}

#[test]
fn deterministic_round_trip_preserves_complete_recovery_state() {
    let snapshot = rich_snapshot();
    let first = snapshot_codec::encode_local_scalar_snapshot(&snapshot).unwrap();
    let second = snapshot_codec::encode_local_scalar_snapshot(&snapshot).unwrap();

    assert_eq!(first, second);
    assert_eq!(snapshot_codec::decode_local_scalar_snapshot(&first).unwrap(), snapshot);
}

#[test]
fn decoded_snapshot_restores_domain_exactly() {
    let snapshot = rich_snapshot();
    let encoded = snapshot_codec::encode_local_scalar_snapshot(&snapshot).unwrap();
    let decoded = snapshot_codec::decode_local_scalar_snapshot(&encoded).unwrap();

    let original = LocalScalarDomain::restore(snapshot).unwrap();
    let restored = LocalScalarDomain::restore(decoded).unwrap();
    assert_eq!(restored, original);
}

#[test]
fn trailing_and_truncated_bytes_fail_closed() {
    let encoded = snapshot_codec::encode_local_scalar_snapshot(&rich_snapshot()).unwrap();

    let mut trailing = encoded.clone();
    trailing.push(0);
    assert_eq!(
        snapshot_codec::decode_local_scalar_snapshot(&trailing).unwrap_err(),
        SnapshotCodecError::TrailingBytes
    );

    assert!(matches!(
        snapshot_codec::decode_local_scalar_snapshot(&encoded[..encoded.len() - 1]),
        Err(SnapshotCodecError::UnexpectedEof)
    ));
}

#[test]
fn invalid_magic_and_version_fail_closed() {
    let encoded = snapshot_codec::encode_local_scalar_snapshot(&rich_snapshot()).unwrap();

    let mut bad_magic = encoded.clone();
    bad_magic[0] ^= 1;
    assert_eq!(
        snapshot_codec::decode_local_scalar_snapshot(&bad_magic).unwrap_err(),
        SnapshotCodecError::InvalidMagic
    );

    let mut bad_version = encoded;
    bad_version[CODEC_MAGIC_LEN..CODEC_MAGIC_LEN + 2].copy_from_slice(&2_u16.to_be_bytes());
    assert_eq!(
        snapshot_codec::decode_local_scalar_snapshot(&bad_version).unwrap_err(),
        SnapshotCodecError::UnsupportedVersion { version: 2 }
    );
}

#[test]
fn snapshot_image_starts_with_its_own_magic() {
    let encoded = snapshot_codec::encode_local_scalar_snapshot(&rich_snapshot()).unwrap();
    assert_eq!(&encoded[..CODEC_MAGIC_LEN], b"APCLSNP1");
    assert_eq!(&encoded[CODEC_MAGIC_LEN..CODEC_MAGIC_LEN + 2], &[0, 1]);
}

#[test]
fn snapshot_codec_refuses_an_inconsistent_image_before_encoding() {
    let mut snapshot = rich_snapshot();
    snapshot.finalization.handed_off_local_ids = RevisionSet::from_ids(vec![codec_rid(100)]);
    assert!(matches!(
        snapshot_codec::encode_local_scalar_snapshot(&snapshot),
        Err(SnapshotCodecError::Core(CoreError::InvalidFinalizationSnapshot))
    ));
}
