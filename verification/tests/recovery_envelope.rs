use apc::recovery::{crc32_ieee, decode, encode, RecoveryDecodeError, CHECKSUM_LEN, HEADER_LEN};

const ENVELOPE_MAGIC_LEN: usize = 8;

#[test]
fn crc_matches_standard_check_vector() {
    assert_eq!(crc32_ieee(b"123456789"), 0xcbf4_3926);
}

#[test]
fn encoding_is_deterministic_and_round_trips() {
    let first = encode(b"deterministic recovery state");
    let second = encode(b"deterministic recovery state");

    assert_eq!(first, second);
    assert_eq!(decode(&first).unwrap(), b"deterministic recovery state");
}

#[test]
fn truncation_and_trailing_data_fail_closed() {
    let encoded = encode(b"payload");

    assert!(matches!(
        decode(&encoded[..encoded.len() - 1]),
        Err(RecoveryDecodeError::LengthMismatch)
    ));

    let mut trailing = encoded.clone();
    trailing.push(0);
    assert!(matches!(decode(&trailing), Err(RecoveryDecodeError::LengthMismatch)));
}

#[test]
fn payload_corruption_is_detected() {
    let mut encoded = encode(b"payload");
    encoded[HEADER_LEN + 2] ^= 0x40;

    assert_eq!(decode(&encoded).unwrap_err(), RecoveryDecodeError::ChecksumMismatch);
}

#[test]
fn magic_and_version_are_validated() {
    let mut bad_magic = encode(b"payload");
    bad_magic[0] ^= 1;
    assert_eq!(decode(&bad_magic).unwrap_err(), RecoveryDecodeError::InvalidMagic);

    let mut bad_version = encode(b"payload");
    bad_version[ENVELOPE_MAGIC_LEN..ENVELOPE_MAGIC_LEN + 2].copy_from_slice(&2_u16.to_be_bytes());
    assert_eq!(
        decode(&bad_version).unwrap_err(),
        RecoveryDecodeError::UnsupportedVersion { version: 2 }
    );
}

#[test]
fn empty_payload_and_short_input() {
    let encoded = encode(b"");
    assert_eq!(encoded.len(), HEADER_LEN + CHECKSUM_LEN);
    assert_eq!(decode(&encoded).unwrap(), Vec::<u8>::new());
    assert_eq!(decode(&encoded[..HEADER_LEN]).unwrap_err(), RecoveryDecodeError::TooShort);
    assert_eq!(crc32_ieee(b""), 0);
}

#[test]
fn envelope_layout_is_magic_version_length_payload_checksum() {
    let encoded = encode(b"xyz");
    assert_eq!(&encoded[..ENVELOPE_MAGIC_LEN], b"APCDEV01");
    assert_eq!(&encoded[8..10], &[0, 1]);
    assert_eq!(&encoded[10..18], &3u64.to_be_bytes());
    assert_eq!(&encoded[18..21], b"xyz");
    assert_eq!(&encoded[21..25], &crc32_ieee(&encoded[..21]).to_be_bytes());
}

#[test]
fn oversized_declared_length_is_refused() {
    let mut encoded = encode(b"xyz");
    encoded[10..18].copy_from_slice(&u64::MAX.to_be_bytes());
    let result = decode(&encoded).unwrap_err();
    assert!(matches!(
        result,
        RecoveryDecodeError::LengthOverflow | RecoveryDecodeError::LengthMismatch
    ));
}
