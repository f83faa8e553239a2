//! Authenticated symmetric protection of one plaintext unit under an explicit
//! caller context, with XChaCha20-Poly1305.
//!
//! A protected envelope is a magic tag, a version, an algorithm tag, the
//! nonce, the ciphertext length and the ciphertext with its tag. The context is
//! authenticated, never encrypted, and bound under a fixed domain separator.
use vstd::prelude::*;

use crate::bytes::{be_bytes, be_value, lemma_be_round_trip, lemma_be_value_bound, lemma_byte_bound_8, push_be, read_be};

use chacha20poly1305::aead::{Aead, Generate, KeyInit, Payload};
use chacha20poly1305::{XChaCha20Poly1305, XNonce};
use zeroize::Zeroizing;

verus! {

/// Owned 256-bit content-protection key, wiped when dropped. Its bytes live
/// in a private wiping holder that is reached only through `from_bytes` and
/// `expose_bytes`; `content_key_bytes` names what it holds.
#[verifier::external_body]
pub struct ContentKey {
    key: Zeroizing<[u8; 32]>,
}

/// The key bytes a content key holds.
pub uninterp spec fn content_key_bytes(k: ContentKey) -> Seq<u8>;

/// `Zeroizing::new`: the holder holds exactly the given bytes.
#[verifier::external_body]
fn content_key_new(bytes: [u8; 32]) -> (k: ContentKey)
    ensures
        content_key_bytes(k) == bytes@,
{
    ContentKey { key: Zeroizing::new(bytes) }
}

/// `Deref` of `Zeroizing`: the bytes the holder holds.
#[verifier::external_body]
fn content_key_expose(k: &ContentKey) -> (r: &[u8; 32])
    ensures
        r@ == content_key_bytes(*k),
{
    &k.key
}

/// `Generate::try_generate` for a 256-bit key: fresh bytes from the
/// operating system's random source, none when it is unavailable. Nothing is
/// stated of the bytes.
#[verifier::external_body]
fn generate_key_bytes() -> (r: Option<[u8; 32]>) {
    match chacha20poly1305::Key::try_generate() {
        Ok(key) => Some(key.0),
        Err(_) => None,
    }
}

/// `Generate::try_generate` for a 192-bit nonce: fresh bytes from the
/// operating system's random source, none when it is unavailable. Nothing is
/// stated of the bytes.
#[verifier::external_body]
fn generate_nonce_bytes() -> (r: Option<[u8; 24]>) {
    match XNonce::try_generate() {
        Ok(nonce) => Some(nonce.0),
        Err(_) => None,
    }
}

/// The ciphertext with tag that XChaCha20-Poly1305 produces for a key, a
/// nonce, associated data and a message.
pub uninterp spec fn xchacha_seal(key: Seq<u8>, nonce: Seq<u8>, aad: Seq<u8>, msg: Seq<u8>) -> Seq<u8>;

/// What XChaCha20-Poly1305 decryption gives: the message when the tag
/// authenticates the ciphertext under the key, nonce and associated data.
pub uninterp spec fn xchacha_open(key: Seq<u8>, nonce: Seq<u8>, aad: Seq<u8>, ct: Seq<u8>) -> Option<Seq<u8>>;

/// `Aead::encrypt` of `XChaCha20Poly1305` under a key made from `key`.
///
/// Claims: the ciphertext is the named result of the arguments; it is the
/// message length plus the 16-byte tag (the source encrypts in place and
/// appends the tag); decrypting it under the same key, nonce and
/// associated data gives the message back; and it succeeds exactly when the
/// message has fewer than `u32::MAX` whole 64-byte blocks (the cipher's only
/// refusal; a 32-byte key is always accepted and the output vector always
/// grows).
#[verifier::external_body]
fn xchacha_encrypt(key: &[u8; 32], nonce: [u8; 24], aad: &[u8], msg: &[u8]) -> (r: Option<Vec<u8>>)
    ensures
        r is Some <==> msg@.len() / 64 < u32::MAX,
        r matches Some(c) ==> c@ == xchacha_seal(key@, nonce@, aad@, msg@) && c@.len() == msg@.len() + 16
            && xchacha_open(key@, nonce@, aad@, c@) == Some(msg@),
{
    let cipher = match XChaCha20Poly1305::new_from_slice(key) {
        Ok(cipher) => cipher,
        Err(_) => return None,
    };
    match cipher.encrypt(&XNonce::from(nonce), Payload { msg, aad }) {
        Ok(c) => Some(c),
        Err(_) => None,
    }
}

/// `Aead::decrypt` of `XChaCha20Poly1305` under a key made from `key`.
///
/// Claims: the result is the named result of the arguments.
#[verifier::external_body]
fn xchacha_decrypt(key: &[u8; 32], nonce: [u8; 24], aad: &[u8], ct: &[u8]) -> (r: Option<Vec<u8>>)
    ensures
        match r {
            Some(p) => xchacha_open(key@, nonce@, aad@, ct@) == Some(p@),
            None => xchacha_open(key@, nonce@, aad@, ct@) is None,
        },
{
    let cipher = match XChaCha20Poly1305::new_from_slice(key) {
        Ok(cipher) => cipher,
        Err(_) => return None,
    };
    match cipher.decrypt(&XNonce::from(nonce), Payload { msg: ct, aad }) {
        Ok(p) => Some(p),
        Err(_) => None,
    }
}

// ---------------------------------------------------------------- envelope

/// Ways in which protection is refused.
#[derive(Debug, Clone, PartialEq, Eq)]
pub enum ProtectionError {
    EmptyContext,
    RandomnessUnavailable,
    InvalidEnvelope,
    UnsupportedVersion { version: u16 },
    UnsupportedAlgorithm { algorithm: u8 },
    AuthenticationFailed,
    LengthOverflow,
}

/// Bytes before the ciphertext: magic, version, algorithm, nonce, length.
pub const HEADER_BYTES: usize = 43;

/// Bytes of the authentication tag.
pub const TAG_BYTES: usize = 16;

/// Bytes of a nonce.
pub const NONCE_BYTES: usize = 24;

/// The magic tag, `APCPROT1`.
pub open spec fn protection_magic() -> Seq<u8> {
    seq![0x41u8, 0x50u8, 0x43u8, 0x50u8, 0x52u8, 0x4fu8, 0x54u8, 0x31u8]
}

/// The domain separator in front of every caller context.
pub open spec fn aad_domain() -> Seq<u8> {
    seq![0x41u8, 0x2eu8, 0x50u8, 0x2eu8, 0x43u8, 0x2eu8, 0x20u8, 0x61u8, 0x75u8, 0x74u8, 0x68u8, 0x65u8, 0x6eu8, 0x74u8, 0x69u8, 0x63u8, 0x61u8, 0x74u8, 0x65u8, 0x64u8, 0x20u8, 0x70u8, 0x72u8, 0x6fu8, 0x74u8, 0x65u8, 0x63u8, 0x74u8, 0x69u8, 0x6fu8, 0x6eu8, 0x00u8, 0x76u8, 0x31u8, 0x00u8, 0x78u8, 0x63u8, 0x68u8, 0x61u8, 0x63u8, 0x68u8, 0x61u8, 0x32u8, 0x30u8, 0x70u8, 0x6fu8, 0x6cu8, 0x79u8, 0x31u8, 0x33u8, 0x30u8, 0x35u8, 0x00u8]
}

/// The associated data that binds a context.
pub open spec fn aad_of(context: Seq<u8>) -> Seq<u8> {
    aad_domain() + context
}

/// An envelope around a nonce and a ciphertext with its tag.
pub open spec fn envelope_bytes(nonce: Seq<u8>, ct: Seq<u8>) -> Seq<u8> {
    protection_magic() + be_bytes(1, 2) + seq![1u8] + nonce + be_bytes(ct.len(), 8) + ct
}

/// What unprotecting `env` under `key` and `context` gives.
pub open spec fn unprotect_result(key: Seq<u8>, context: Seq<u8>, env: Seq<u8>) -> Result<Seq<u8>, ProtectionError> {
    if context.len() == 0 {
        Err(ProtectionError::EmptyContext)
    } else if env.len() < HEADER_BYTES + TAG_BYTES {
        Err(ProtectionError::InvalidEnvelope)
    } else if env.subrange(0, 8) != protection_magic() {
        Err(ProtectionError::InvalidEnvelope)
    } else if be_value(env.subrange(8, 10)) != 1 {
        Err(ProtectionError::UnsupportedVersion { version: be_value(env.subrange(8, 10)) as u16 })
    } else if env[10] != 1 {
        Err(ProtectionError::UnsupportedAlgorithm { algorithm: env[10] })
    } else if be_value(env.subrange(35, 43)) > usize::MAX {
        Err(ProtectionError::LengthOverflow)
    } else if be_value(env.subrange(35, 43)) < TAG_BYTES {
        Err(ProtectionError::InvalidEnvelope)
    } else if be_value(env.subrange(35, 43)) + HEADER_BYTES > usize::MAX {
        Err(ProtectionError::LengthOverflow)
    } else if env.len() != be_value(env.subrange(35, 43)) + HEADER_BYTES {
        Err(ProtectionError::InvalidEnvelope)
    } else {
        match xchacha_open(key, env.subrange(11, 35), aad_of(context), env.subrange(43, env.len() as int)) {
            Some(p) => Ok(p),
            None => Err(ProtectionError::AuthenticationFailed),
        }
    }
}

impl View for ContentKey {
    type V = Seq<u8>;

    closed spec fn view(&self) -> Seq<u8> {
        content_key_bytes(*self)
    }
}

impl ContentKey {
    /// A fresh key from the operating system's random source.
    pub fn generate() -> (r: Result<Self, ProtectionError>)
        ensures
            r is Err ==> r == Err::<Self, ProtectionError>(ProtectionError::RandomnessUnavailable),
            r matches Ok(k) ==> k@.len() == 32,
    {
        match generate_key_bytes() {
            Some(bytes) => Ok(ContentKey::from_bytes(bytes)),
            None => Err(ProtectionError::RandomnessUnavailable),
        }
    }

    pub fn from_bytes(bytes: [u8; 32]) -> (k: Self)
        ensures
            k@ == bytes@,
    {
        content_key_new(bytes)
    }

    /// Explicit export boundary for future wrapping and persistence layers;
    /// the bytes must never reach ordinary content or diagnostics.
    pub fn expose_bytes(&self) -> (r: &[u8; 32])
        ensures
            r@ == self@,
    {
        content_key_expose(self)
    }
}

fn append(out: &mut Vec<u8>, s: &[u8])
    ensures
        final(out)@ == old(out)@ + s@,
{
    let mut i: usize = 0;
    while i < s.len()
        invariant
            i <= s@.len(),
            out@ == old(out)@ + s@.take(i as int),
        decreases s@.len() - i,
    {
        out.push(s[i]);
        assert(s@.take(i as int + 1) =~= s@.take(i as int).push(s@[i as int]));
        i = i + 1;
    }
    assert(s@.take(s@.len() as int) =~= s@);
}

/// The associated data for a context: the domain separator, then the context.
pub fn build_aad(context: &[u8]) -> (aad: Vec<u8>)
    ensures
        aad@ == aad_of(context@),
{
    let mut aad = vec![0x41, 0x2e, 0x50, 0x2e, 0x43, 0x2e, 0x20, 0x61, 0x75, 0x74, 0x68, 0x65, 0x6e, 0x74, 0x69, 0x63, 0x61, 0x74, 0x65, 0x64, 0x20, 0x70, 0x72, 0x6f, 0x74, 0x65, 0x63, 0x74, 0x69, 0x6f, 0x6e, 0x00, 0x76, 0x31, 0x00, 0x78, 0x63, 0x68, 0x61, 0x63, 0x68, 0x61, 0x32, 0x30, 0x70, 0x6f, 0x6c, 0x79, 0x31, 0x33, 0x30, 0x35, 0x00];
    assert(aad@ =~= aad_domain());
    append(&mut aad, context);
    aad
}

/// Decoding an envelope made by protection gives the plaintext back.
pub proof fn lemma_unprotect_envelope(key: Seq<u8>, context: Seq<u8>, nonce: Seq<u8>, msg: Seq<u8>)
    requires
        context.len() > 0,
        nonce.len() == NONCE_BYTES,
        xchacha_seal(key, nonce, aad_of(context), msg).len() == msg.len() + TAG_BYTES,
        xchacha_open(key, nonce, aad_of(context), xchacha_seal(key, nonce, aad_of(context), msg)) == Some(msg),
        envelope_bytes(nonce, xchacha_seal(key, nonce, aad_of(context), msg)).len() <= usize::MAX,
    ensures
        unprotect_result(key, context, envelope_bytes(nonce, xchacha_seal(key, nonce, aad_of(context), msg))) == Ok::<Seq<u8>, ProtectionError>(msg),
{
    let ct = xchacha_seal(key, nonce, aad_of(context), msg);
    let env = envelope_bytes(nonce, ct);
    lemma_byte_bound_8();
    lemma_be_round_trip(1, 2);
    lemma_be_round_trip(ct.len(), 8);
    assert(env.subrange(0, 8) =~= protection_magic());
    assert(env.subrange(8, 10) =~= be_bytes(1, 2));
    assert(env[10] == 1);
    assert(env.subrange(11, 35) =~= nonce);
    assert(env.subrange(35, 43) =~= be_bytes(ct.len(), 8));
    assert(env.subrange(43, env.len() as int) =~= ct);
}

/// The plaintexts that the cipher accepts: fewer than `u32::MAX` whole
/// 64-byte blocks.
pub open spec fn encryptable(plaintext: Seq<u8>) -> bool {
    plaintext.len() / 64 < u32::MAX
}

/// Protects plaintext under a given nonce. The envelope authenticates the
/// context; unprotecting it under the same key and context gives the
/// plaintext back. Only a plaintext too long for the cipher is refused.
pub fn protect_with_nonce(key: &ContentKey, context: &[u8], plaintext: &[u8], nonce_bytes: [u8; 24]) -> (r: Result<Vec<u8>, ProtectionError>)
    ensures
        r is Ok <==> encryptable(plaintext@),
        r matches Ok(env) ==> env@.len() == plaintext@.len() + HEADER_BYTES + TAG_BYTES,
        r matches Ok(env) ==> env@ == envelope_bytes(nonce_bytes@, xchacha_seal(key@, nonce_bytes@, aad_of(context@), plaintext@)),
        r matches Ok(env) ==> (context@.len() > 0 ==> unprotect_result(key@, context@, env@) == Ok::<Seq<u8>, ProtectionError>(plaintext@)),
        r is Err ==> r == Err::<Vec<u8>, ProtectionError>(ProtectionError::LengthOverflow),
{
    let aad = build_aad(context);
    let ciphertext = match xchacha_encrypt(key.expose_bytes(), nonce_bytes, aad.as_slice(), plaintext) {
        Some(c) => c,
        None => {
            return Err(ProtectionError::LengthOverflow);
        },
    };
    let mut envelope: Vec<u8> = Vec::new();
    let magic = vec![0x41, 0x50, 0x43, 0x50, 0x52, 0x4f, 0x54, 0x31];
    assert(magic@ =~= protection_magic());
    append(&mut envelope, magic.as_slice());
    proof {
        lemma_byte_bound_8();
    }
    push_be(&mut envelope, 1, 2);
    envelope.push(1);
    append(&mut envelope, nonce_bytes.as_slice());
    push_be(&mut envelope, ciphertext.len() as u64, 8);
    append(&mut envelope, ciphertext.as_slice());
    assert(envelope@ =~= envelope_bytes(nonce_bytes@, ciphertext@));
    proof {
        lemma_be_round_trip(1, 2);
        lemma_be_round_trip(ciphertext@.len(), 8);
    }
    let n = envelope.len();
    proof {
        if context@.len() > 0 {
            lemma_unprotect_envelope(key@, context@, nonce_bytes@, plaintext@);
        }
    }
    Ok(envelope)
}

/// Protects plaintext under a fresh nonce from the operating system's random
/// source. The context must not be empty.
pub fn protect(key: &ContentKey, context: &[u8], plaintext: &[u8]) -> (r: Result<Vec<u8>, ProtectionError>)
    ensures
        context@.len() == 0 ==> r == Err::<Vec<u8>, ProtectionError>(ProtectionError::EmptyContext),
        context@.len() > 0 ==> (r is Err ==> r == Err::<Vec<u8>, ProtectionError>(ProtectionError::RandomnessUnavailable)
            || r == Err::<Vec<u8>, ProtectionError>(ProtectionError::LengthOverflow)),
        r == Err::<Vec<u8>, ProtectionError>(ProtectionError::LengthOverflow) ==> !encryptable(plaintext@),
        !encryptable(plaintext@) ==> r is Err,
        context@.len() > 0 && encryptable(plaintext@) && r is Err ==> r == Err::<Vec<u8>, ProtectionError>(
            ProtectionError::RandomnessUnavailable,
        ),
        r matches Ok(env) ==> exists|nonce: Seq<u8>| nonce.len() == NONCE_BYTES
            && env@ == #[trigger] envelope_bytes(nonce, xchacha_seal(key@, nonce, aad_of(context@), plaintext@)),
        r matches Ok(env) ==> unprotect_result(key@, context@, env@) == Ok::<Seq<u8>, ProtectionError>(plaintext@),
        r matches Ok(env) ==> env@.len() == plaintext@.len() + HEADER_BYTES + TAG_BYTES && env@ != plaintext@,
        r is Ok ==> context@.len() > 0 && encryptable(plaintext@),
{
    if context.len() == 0 {
        return Err(ProtectionError::EmptyContext);
    }
    let nonce = match generate_nonce_bytes() {
        Some(n) => n,
        None => {
            return Err(ProtectionError::RandomnessUnavailable);
        },
    };
    protect_with_nonce(key, context, plaintext, nonce)
}

/// Authenticates and decrypts one complete envelope; a failure never gives
/// partial plaintext.
pub fn unprotect(key: &ContentKey, context: &[u8], envelope: &[u8]) -> (r: Result<Vec<u8>, ProtectionError>)
    ensures
        match unprotect_result(key@, context@, envelope@) {
            Ok(p) => r matches Ok(v) && v@ == p,
            Err(e) => r == Err::<Vec<u8>, ProtectionError>(e),
        },
{
    if context.len() == 0 {
        return Err(ProtectionError::EmptyContext);
    }
    let len = envelope.len();
    if len < HEADER_BYTES + TAG_BYTES {
        return Err(ProtectionError::InvalidEnvelope);
    }
    let magic = vec![0x41, 0x50, 0x43, 0x50, 0x52, 0x4f, 0x54, 0x31];
    assert(magic@ =~= protection_magic());
    if crate::order::compare_bytes(&envelope[0..8], magic.as_slice()) != 0 {
        return Err(ProtectionError::InvalidEnvelope);
    }
    let version = read_be(envelope, 8, 2);
    proof {
        lemma_byte_bound_8();
        lemma_be_value_bound(envelope@.subrange(8, 10));
    }
    if version != 1 {
        return Err(ProtectionError::UnsupportedVersion { version: version as u16 });
    }
    let algorithm = envelope[10];
    if algorithm != 1 {
        return Err(ProtectionError::UnsupportedAlgorithm { algorithm });
    }
    let nonce = crate::id::array24_from_slice(&envelope[11..35]);
    let ciphertext_len_u64 = read_be(envelope, 35, 8);
    if ciphertext_len_u64 > usize::MAX as u64 {
        return Err(ProtectionError::LengthOverflow);
    }
    let ciphertext_len = ciphertext_len_u64 as usize;
    if ciphertext_len < TAG_BYTES {
        return Err(ProtectionError::InvalidEnvelope);
    }
    let expected = match HEADER_BYTES.checked_add(ciphertext_len) {
        Some(x) => x,
        None => {
            return Err(ProtectionError::LengthOverflow);
        },
    };
    if len != expected {
        return Err(ProtectionError::InvalidEnvelope);
    }
    let aad = build_aad(context);
    match xchacha_decrypt(key.expose_bytes(), nonce, aad.as_slice(), &envelope[43..len]) {
        Some(p) => Ok(p),
        None => Err(ProtectionError::AuthenticationFailed),
    }
}

} // verus!
