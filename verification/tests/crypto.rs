use apc::protection::{
    build_aad, protect, protect_with_nonce, unprotect, ContentKey, ProtectionError, HEADER_BYTES,
    NONCE_BYTES, TAG_BYTES,
};

const KEY_A: [u8; 32] = [0x11; 32];
const KEY_B: [u8; 32] = [0x22; 32];
const CONTEXT: &[u8] = b"apc-test/local-recovery/continuum-a";
const MAGIC_LEN: usize = 8;

fn key_a() -> ContentKey {
    ContentKey::from_bytes(KEY_A)
}

#[test]
fn round_trip_supports_empty_and_nonempty_plaintext() {
    for plaintext in [b"".as_slice(), b"hello protected A.P.C.".as_slice()] {
        let key = key_a();
        let envelope = protect(&key, CONTEXT, plaintext).unwrap();
        assert_ne!(envelope, plaintext);
        assert_eq!(unprotect(&key, CONTEXT, &envelope).unwrap(), plaintext);
    }
}

#[test]
fn same_input_uses_independent_random_nonces() {
    let key = key_a();
    let first = protect(&key, CONTEXT, b"same plaintext").unwrap();
    let second = protect(&key, CONTEXT, b"same plaintext").unwrap();

    assert_ne!(first, second);
    let nonce_offset = MAGIC_LEN + 2 + 1;
    assert_ne!(
        &first[nonce_offset..nonce_offset + NONCE_BYTES],
        &second[nonce_offset..nonce_offset + NONCE_BYTES]
    );
}

#[test]
fn wrong_key_and_wrong_context_fail_authentication() {
    let key = key_a();
    let envelope = protect(&key, CONTEXT, b"secret").unwrap();

    assert_eq!(
        unprotect(&ContentKey::from_bytes(KEY_B), CONTEXT, &envelope).unwrap_err(),
        ProtectionError::AuthenticationFailed
    );
    assert_eq!(
        unprotect(&key, b"apc-test/other-context", &envelope).unwrap_err(),
        ProtectionError::AuthenticationFailed
    );
}

#[test]
fn nonce_ciphertext_and_tag_tampering_fail_authentication() {
    let key = key_a();
    let envelope = protect(&key, CONTEXT, b"tamper target").unwrap();
    let nonce_offset = MAGIC_LEN + 2 + 1;

    let mut nonce_tampered = envelope.clone();
    nonce_tampered[nonce_offset] ^= 0x01;
    assert_eq!(
        unprotect(&key, CONTEXT, &nonce_tampered).unwrap_err(),
        ProtectionError::AuthenticationFailed
    );

    let mut ciphertext_tampered = envelope.clone();
    ciphertext_tampered[HEADER_BYTES] ^= 0x80;
    assert_eq!(
        unprotect(&key, CONTEXT, &ciphertext_tampered).unwrap_err(),
        ProtectionError::AuthenticationFailed
    );

    let mut tag_tampered = envelope;
    let last = tag_tampered.len() - 1;
    tag_tampered[last] ^= 0x40;
    assert_eq!(
        unprotect(&key, CONTEXT, &tag_tampered).unwrap_err(),
        ProtectionError::AuthenticationFailed
    );
}

#[test]
fn malformed_header_truncation_and_trailing_bytes_fail_closed() {
    let key = key_a();
    let envelope = protect(&key, CONTEXT, b"payload").unwrap();

    let mut bad_magic = envelope.clone();
    bad_magic[0] ^= 1;
    assert_eq!(
        unprotect(&key, CONTEXT, &bad_magic).unwrap_err(),
        ProtectionError::InvalidEnvelope
    );

    let mut bad_version = envelope.clone();
    bad_version[MAGIC_LEN..MAGIC_LEN + 2].copy_from_slice(&2_u16.to_be_bytes());
    assert_eq!(
        unprotect(&key, CONTEXT, &bad_version).unwrap_err(),
        ProtectionError::UnsupportedVersion { version: 2 }
    );

    let algorithm_offset = MAGIC_LEN + 2;
    let mut bad_algorithm = envelope.clone();
    bad_algorithm[algorithm_offset] = 99;
    assert_eq!(
        unprotect(&key, CONTEXT, &bad_algorithm).unwrap_err(),
        ProtectionError::UnsupportedAlgorithm { algorithm: 99 }
    );

    assert_eq!(
        unprotect(&key, CONTEXT, &envelope[..envelope.len() - 1]).unwrap_err(),
        ProtectionError::InvalidEnvelope
    );

    let mut trailing = envelope;
    trailing.push(0);
    assert_eq!(
        unprotect(&key, CONTEXT, &trailing).unwrap_err(),
        ProtectionError::InvalidEnvelope
    );
}

#[test]
fn context_is_mandatory() {
    let key = key_a();
    assert_eq!(
        protect(&key, b"", b"plaintext").unwrap_err(),
        ProtectionError::EmptyContext
    );
    assert_eq!(
        unprotect(&key, b"", b"not-an-envelope").unwrap_err(),
        ProtectionError::EmptyContext
    );
}

#[test]
fn fixed_nonce_path_is_deterministic_for_future_interop_vectors() {
    let key = key_a();
    let nonce = [0x33; NONCE_BYTES];
    let first = protect_with_nonce(&key, CONTEXT, b"interop", nonce).unwrap();
    let second = protect_with_nonce(&key, CONTEXT, b"interop", nonce).unwrap();
    assert_eq!(first, second);
    assert_eq!(unprotect(&key, CONTEXT, &first).unwrap(), b"interop");
}

#[test]
fn envelope_layout_frames_nonce_length_and_tag() {
    let key = key_a();
    let nonce = [0x44; NONCE_BYTES];
    let envelope = protect_with_nonce(&key, CONTEXT, b"abc", nonce).unwrap();
    assert_eq!(&envelope[..MAGIC_LEN], b"APCPROT1");
    assert_eq!(&envelope[MAGIC_LEN..MAGIC_LEN + 2], &[0, 1]);
    assert_eq!(envelope[MAGIC_LEN + 2], 1);
    assert_eq!(&envelope[11..35], &nonce[..]);
    assert_eq!(&envelope[35..43], &((3 + TAG_BYTES) as u64).to_be_bytes());
    assert_eq!(envelope.len(), HEADER_BYTES + 3 + TAG_BYTES);
    assert_ne!(&envelope[HEADER_BYTES..HEADER_BYTES + 3], b"abc");
}

#[test]
fn associated_data_prefixes_the_domain_separator() {
    let aad = build_aad(b"ctx");
    assert!(aad.starts_with(b"A.P.C. authenticated protection\0v1\0xchacha20poly1305\0"));
    assert!(aad.ends_with(b"ctx"));
}

#[test]
fn generated_keys_and_exposed_bytes() {
    let key = ContentKey::from_bytes(KEY_B);
    assert_eq!(key.expose_bytes(), &KEY_B);
    let first = ContentKey::generate().unwrap();
    let second = ContentKey::generate().unwrap();
    assert_ne!(first.expose_bytes(), second.expose_bytes());
}

#[test]
fn envelope_is_plaintext_plus_header_and_tag() {
    for plaintext in [&b""[..], &b"x"[..], &b"hello protected A.P.C."[..]] {
        let fixed = protect_with_nonce(&key_a(), CONTEXT, plaintext, [7; NONCE_BYTES]).unwrap();
        assert_eq!(fixed.len(), plaintext.len() + HEADER_BYTES + TAG_BYTES);
        assert_eq!(fixed.len(), plaintext.len() + 59);
        let random = protect(&key_a(), CONTEXT, plaintext).unwrap();
        assert_eq!(random.len(), plaintext.len() + 59);
        assert_ne!(random, plaintext.to_vec());
    }
}
