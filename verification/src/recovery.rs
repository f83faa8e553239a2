//! Development recovery envelope: a magic tag, a version, the payload length,
//! the payload and an IEEE CRC-32 of everything before it.
//!
//! The checksum only makes torn, truncated or accidentally modified snapshots
//! fail closed; it is not an authenticity mechanism.
use vstd::prelude::*;

use crate::bytes::{be_bytes, be_value, lemma_be_round_trip, lemma_be_value_bound, lemma_byte_bound_8, push_be, read_be};

verus! {

/// Ways in which an envelope is refused.
#[derive(Clone, Debug, PartialEq, Eq)]
pub enum RecoveryDecodeError {
    TooShort,
    InvalidMagic,
    UnsupportedVersion { version: u16 },
    LengthOverflow,
    LengthMismatch,
    ChecksumMismatch,
}

/// Bytes before the payload: magic, version and length.
pub const HEADER_LEN: usize = 18;

/// Bytes of the trailing checksum.
pub const CHECKSUM_LEN: usize = 4;

/// The magic tag, `APCDEV01`.
pub open spec fn envelope_magic() -> Seq<u8> {
    seq![0x41u8, 0x50u8, 0x43u8, 0x44u8, 0x45u8, 0x56u8, 0x30u8, 0x31u8]
}

// ---------------------------------------------------------------- CRC-32

/// One bit step of the reflected CRC-32 with polynomial `0xEDB88320`.
pub open spec fn crc_bit(c: u32) -> u32 {
    if c & 1 == 1 {
        (c >> 1) ^ 0xedb8_8320u32
    } else {
        c >> 1
    }
}

/// `n` bit steps.
pub open spec fn crc_bits(c: u32, n: nat) -> u32
    decreases n,
{
    if n == 0 {
        c
    } else {
        crc_bit(crc_bits(c, (n - 1) as nat))
    }
}

/// The register after the bytes of `s`, starting from `init`.
pub open spec fn crc_update(init: u32, s: Seq<u8>) -> u32
    decreases s.len(),
{
    if s.len() == 0 {
        init
    } else {
        crc_bits(crc_update(init, s.drop_last()) ^ (s.last() as u32), 8)
    }
}

/// The IEEE CRC-32 of `s`.
pub open spec fn crc32_spec(s: Seq<u8>) -> u32 {
    !crc_update(0xffff_ffffu32, s)
}

/// IEEE CRC-32, used only to detect corruption and torn writes; never an
/// authentication.
pub fn crc32_ieee(bytes: &[u8]) -> (r: u32)
    ensures
        r == crc32_spec(bytes@),
{
    let mut crc: u32 = 0xffff_ffff;
    let mut i: usize = 0;
    proof {
        assert(bytes@.take(0) =~= Seq::<u8>::empty());
    }
    while i < bytes.len()
        invariant
            i <= bytes@.len(),
            crc == crc_update(0xffff_ffffu32, bytes@.take(i as int)),
        decreases bytes@.len() - i,
    {
        let ghost start = crc ^ (bytes@[i as int] as u32);
        crc = crc ^ (bytes[i] as u32);
        let mut k: usize = 0;
        while k < 8
            invariant
                k <= 8,
                crc == crc_bits(start, k as nat),
            decreases 8 - k,
        {
            if crc & 1 == 1 {
                crc = (crc >> 1) ^ 0xedb8_8320u32;
            } else {
                crc = crc >> 1;
            }
            k = k + 1;
        }
        proof {
            assert(bytes@.take(i as int + 1).drop_last() =~= bytes@.take(i as int));
        }
        i = i + 1;
    }
    proof {
        assert(bytes@.take(bytes@.len() as int) =~= bytes@);
    }
    !crc
}

// ---------------------------------------------------------------- envelope

/// The envelope without its checksum.
pub open spec fn framed(payload: Seq<u8>) -> Seq<u8> {
    envelope_magic() + be_bytes(1, 2) + be_bytes(payload.len(), 8) + payload
}

/// The whole envelope of `payload`.
pub open spec fn envelope(payload: Seq<u8>) -> Seq<u8> {
    framed(payload) + be_bytes(crc32_spec(framed(payload)) as nat, 4)
}

/// What decoding `b` gives.
pub open spec fn envelope_decode(b: Seq<u8>) -> Result<Seq<u8>, RecoveryDecodeError> {
    if b.len() < HEADER_LEN + CHECKSUM_LEN {
        Err(RecoveryDecodeError::TooShort)
    } else if b.subrange(0, 8) != envelope_magic() {
        Err(RecoveryDecodeError::InvalidMagic)
    } else if be_value(b.subrange(8, 10)) != 1 {
        Err(RecoveryDecodeError::UnsupportedVersion { version: be_value(b.subrange(8, 10)) as u16 })
    } else if be_value(b.subrange(10, 18)) + HEADER_LEN + CHECKSUM_LEN > usize::MAX {
        Err(RecoveryDecodeError::LengthOverflow)
    } else if b.len() != be_value(b.subrange(10, 18)) + HEADER_LEN + CHECKSUM_LEN {
        Err(RecoveryDecodeError::LengthMismatch)
    } else if be_value(b.subrange(b.len() - 4, b.len() as int)) != crc32_spec(b.subrange(0, b.len() - 4)) as nat {
        Err(RecoveryDecodeError::ChecksumMismatch)
    } else {
        Ok(b.subrange(18, b.len() - 4))
    }
}

fn append(out: &mut Vec<u8>, s: &[u8])
    ensures
        final(out)@ == old(out)@ + s@,
{
    let mut i: usize = 0;
    while i < s.len()
        invariant
            i <= s@.len(),
            out@ == old(out)@ + s@.take(i as int),
        decreases s@.len() - i,
    {
        out.push(s[i]);
        assert(s@.take(i as int + 1) =~= s@.take(i as int).push(s@[i as int]));
        i = i + 1;
    }
    assert(s@.take(s@.len() as int) =~= s@);
}

/// Wraps a payload in an envelope; decoding the envelope gives the payload
/// back.
pub fn encode(payload: &[u8]) -> (r: Vec<u8>)
    requires
        payload@.len() + HEADER_LEN + CHECKSUM_LEN <= usize::MAX,
    ensures
        r@ == envelope(payload@),
        envelope_decode(r@) == Ok::<Seq<u8>, RecoveryDecodeError>(payload@),
{
    proof {
        lemma_byte_bound_8();
    }
    let mut encoded: Vec<u8> = Vec::new();
    let magic = vec![0x41, 0x50, 0x43, 0x44, 0x45, 0x56, 0x30, 0x31];
    assert(magic@ =~= envelope_magic());
    append(&mut encoded, magic.as_slice());
    push_be(&mut encoded, 1, 2);
    push_be(&mut encoded, payload.len() as u64, 8);
    append(&mut encoded, payload);
    assert(encoded@ =~= framed(payload@));
    let checksum = crc32_ieee(encoded.as_slice());
    push_be(&mut encoded, checksum as u64, 4);
    proof {
        lemma_envelope_decodes(payload@);
    }
    encoded
}

/// Decoding an envelope gives its payload.
pub proof fn lemma_envelope_decodes(payload: Seq<u8>)
    requires
        payload.len() + HEADER_LEN + CHECKSUM_LEN <= usize::MAX,
    ensures
        envelope_decode(envelope(payload)) == Ok::<Seq<u8>, RecoveryDecodeError>(payload),
{
    lemma_byte_bound_8();
    let f = framed(payload);
    let b = envelope(payload);
    let v = be_bytes(1, 2);
    let l = be_bytes(payload.len(), 8);
    let c = be_bytes(crc32_spec(f) as nat, 4);
    lemma_be_round_trip(1, 2);
    lemma_be_round_trip(payload.len(), 8);
    lemma_be_round_trip(crc32_spec(f) as nat, 4);
    assert(b.subrange(0, 8) =~= envelope_magic());
    assert(b.subrange(8, 10) =~= v);
    assert(b.subrange(10, 18) =~= l);
    assert(b.subrange(b.len() - 4, b.len() as int) =~= c);
    assert(b.subrange(0, b.len() - 4) =~= f);
    assert(b.subrange(18, b.len() - 4) =~= payload);
}

/// Unwraps an envelope, refusing it when it is short, of another format or
/// version, of the wrong length or corrupted.
pub fn decode(encoded: &[u8]) -> (r: Result<Vec<u8>, RecoveryDecodeError>)
    ensures
        match envelope_decode(encoded@) {
            Ok(p) => r matches Ok(v) && v@ == p,
            Err(e) => r == Err::<Vec<u8>, RecoveryDecodeError>(e),
        },
{
    let len = encoded.len();
    if len < HEADER_LEN + CHECKSUM_LEN {
        return Err(RecoveryDecodeError::TooShort);
    }
    let magic = vec![0x41, 0x50, 0x43, 0x44, 0x45, 0x56, 0x30, 0x31];
    assert(magic@ =~= envelope_magic());
    let head = &encoded[0..8];
    if crate::order::compare_bytes(head, magic.as_slice()) != 0 {
        return Err(RecoveryDecodeError::InvalidMagic);
    }
    let version = read_be(encoded, 8, 2);
    proof {
        lemma_byte_bound_8();
        lemma_be_value_bound(encoded@.subrange(8, 10));
    }
    if version != 1 {
        return Err(RecoveryDecodeError::UnsupportedVersion { version: version as u16 });
    }
    let payload_len_u64 = read_be(encoded, 10, 8);
    if payload_len_u64 > usize::MAX as u64 {
        return Err(RecoveryDecodeError::LengthOverflow);
    }
    let payload_len = payload_len_u64 as usize;
    let expected = match HEADER_LEN.checked_add(payload_len) {
        Some(x) => match x.checked_add(CHECKSUM_LEN) {
            Some(y) => y,
            None => {
                return Err(RecoveryDecodeError::LengthOverflow);
            },
        },
        None => {
            return Err(RecoveryDecodeError::LengthOverflow);
        },
    };
    if len != expected {
        return Err(RecoveryDecodeError::LengthMismatch);
    }
    let checksum_offset = HEADER_LEN + payload_len;
    let stored = read_be(encoded, checksum_offset, 4);
    let actual = crc32_ieee(&encoded[0..checksum_offset]);
    if stored != actual as u64 {
        return Err(RecoveryDecodeError::ChecksumMismatch);
    }
    let payload = &encoded[HEADER_LEN..checksum_offset];
    let mut out: Vec<u8> = Vec::new();
    append(&mut out, payload);
    assert(out@ =~= payload@);
    Ok(out)
}

} // verus!
