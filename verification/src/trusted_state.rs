//! Deterministic development codec of trusted local scalar recovery state.
//!
//! It is a local runtime recovery encoding: it makes the scalar exposure and
//! durable outbox path restartable. It is not a portable format.
use vstd::prelude::*;

use crate::domain::{domain_consistent, domain_restore_refusal, DomainModel, LocalScalarDomain, LocalScalarSnapshot};
use crate::error::CoreError;
use crate::image::{decode_image, decode_outcome, enc_image, encode_image, image_canonical, snapshot_result_view, ImageError};

verus! {

/// Errors of the development local-scalar recovery codec.
#[derive(Debug, Clone, PartialEq, Eq)]
pub enum TrustedStateCodecError {
    InvalidMagic,
    UnsupportedVersion { version: u16 },
    UnexpectedEof,
    LengthOverflow,
    TrailingBytes,
    InvalidBoolean,
    DuplicateRevisionInSet,
    DuplicateFinalizedStatement,
    Core(CoreError),
}

/// The magic tag of these images, `APCLREC1`.
pub open spec fn recovery_magic() -> Seq<u8> {
    seq![0x41u8, 0x50u8, 0x43u8, 0x4cu8, 0x52u8, 0x45u8, 0x43u8, 0x31u8]
}

fn magic() -> (m: Vec<u8>)
    ensures
        m@ == recovery_magic(),
{
    let m = vec![0x41, 0x50, 0x43, 0x4c, 0x52, 0x45, 0x43, 0x31];
    assert(m@ =~= recovery_magic());
    m
}

/// How this codec reports each refusal of an image.
pub open spec fn recovery_error(e: ImageError) -> TrustedStateCodecError {
    match e {
        ImageError::InvalidMagic => TrustedStateCodecError::InvalidMagic,
        ImageError::UnsupportedVersion { version } => TrustedStateCodecError::UnsupportedVersion { version },
        ImageError::UnexpectedEof => TrustedStateCodecError::UnexpectedEof,
        ImageError::LengthOverflow => TrustedStateCodecError::LengthOverflow,
        ImageError::InvalidOptionTag { .. } => TrustedStateCodecError::InvalidBoolean,
        ImageError::DuplicateRevisionInSet => TrustedStateCodecError::DuplicateRevisionInSet,
        ImageError::DuplicateFinalizedStatement => TrustedStateCodecError::DuplicateFinalizedStatement,
        ImageError::TrailingBytes => TrustedStateCodecError::TrailingBytes,
        ImageError::Core(c) => TrustedStateCodecError::Core(c),
    }
}

fn convert_error(e: ImageError) -> (r: TrustedStateCodecError)
    ensures
        r == recovery_error(e),
{
    match e {
        ImageError::InvalidMagic => TrustedStateCodecError::InvalidMagic,
        ImageError::UnsupportedVersion { version } => TrustedStateCodecError::UnsupportedVersion { version },
        ImageError::UnexpectedEof => TrustedStateCodecError::UnexpectedEof,
        ImageError::LengthOverflow => TrustedStateCodecError::LengthOverflow,
        ImageError::InvalidOptionTag { .. } => TrustedStateCodecError::InvalidBoolean,
        ImageError::DuplicateRevisionInSet => TrustedStateCodecError::DuplicateRevisionInSet,
        ImageError::DuplicateFinalizedStatement => TrustedStateCodecError::DuplicateFinalizedStatement,
        ImageError::TrailingBytes => TrustedStateCodecError::TrailingBytes,
        ImageError::Core(c) => TrustedStateCodecError::Core(c),
    }
}

/// An image decoding outcome as this codec reports it.
pub open spec fn recovery_codec_result(r: Result<DomainModel, ImageError>) -> Result<DomainModel, TrustedStateCodecError> {
    match r {
        Ok(m) => Ok(m),
        Err(e) => Err(recovery_error(e)),
    }
}

pub open spec fn recovery_decoded_view(r: Result<LocalScalarSnapshot, TrustedStateCodecError>) -> Result<DomainModel, TrustedStateCodecError> {
    match r {
        Ok(s) => Ok(s@),
        Err(e) => Err(e),
    }
}

/// Encodes one recovery image deterministically. The complete image is checked as restore would
/// check it before any byte is written; decoding the result gives the image
/// back.
pub fn encode_local_scalar_snapshot(snapshot: &LocalScalarSnapshot) -> (r: Result<Vec<u8>, TrustedStateCodecError>)
    ensures
        r is Ok <==> domain_consistent(snapshot@),
        r matches Ok(out) ==> out@ == enc_image(recovery_magic(), *snapshot),
        r matches Ok(out) ==> decode_outcome(out@, recovery_magic(), Ok(snapshot@)),
        r is Ok ==> image_canonical(*snapshot),
        r matches Err(e) ==> exists|ce: CoreError| e == TrustedStateCodecError::Core(ce) && #[trigger] domain_restore_refusal(snapshot@, ce),
{
    let m = magic();
    match encode_image(snapshot, m.as_slice()) {
        Ok(out) => Ok(out),
        Err(e) => Err(convert_error(e)),
    }
}

/// Decodes a recovery image and checks it as restore would.
pub fn decode_local_scalar_snapshot(encoded: &[u8]) -> (r: Result<LocalScalarSnapshot, TrustedStateCodecError>)
    ensures
        exists|ir: Result<DomainModel, ImageError>| decode_outcome(encoded@, recovery_magic(), ir)
            && #[trigger] recovery_codec_result(ir) == recovery_decoded_view(r),
{
    let m = magic();
    let r = decode_image(encoded, m.as_slice());
    let ghost ir = snapshot_result_view(r);
    let out = match r {
        Ok(s) => Ok(s),
        Err(e) => Err(convert_error(e)),
    };
    assert(recovery_codec_result(ir) == recovery_decoded_view(out));
    out
}

/// Runtime codec for trusted local recovery state. Encoding and decoding
/// must be mutually consistent for every durable record an implementation
/// creates.
pub trait TrustedStateCodec<S> {
    type Error;

    /// `r` is what decoding `bytes` gives.
    spec fn decodes(&self, bytes: Seq<u8>, r: Result<S, Self::Error>) -> bool;

    fn encode(&self, state: &S) -> Result<Vec<u8>, Self::Error>;

    fn decode(&self, bytes: &[u8]) -> (r: Result<S, Self::Error>)
        ensures
            self.decodes(bytes@, r),
    ;
}

/// The development codec of one byte-valued local scalar recovery image.
#[derive(Clone, Copy, Debug, Default)]
pub struct DevelopmentScalarTrustedStateCodec;

impl TrustedStateCodec<LocalScalarSnapshot> for DevelopmentScalarTrustedStateCodec {
    type Error = TrustedStateCodecError;

    open spec fn decodes(&self, bytes: Seq<u8>, r: Result<LocalScalarSnapshot, TrustedStateCodecError>) -> bool {
        exists|ir: Result<DomainModel, ImageError>| decode_outcome(bytes, recovery_magic(), ir)
            && #[trigger] recovery_codec_result(ir) == recovery_decoded_view(r)
    }

    fn encode(&self, state: &LocalScalarSnapshot) -> (r: Result<Vec<u8>, TrustedStateCodecError>)
        ensures
            r is Ok <==> domain_consistent(state@),
            r matches Ok(out) ==> out@ == enc_image(recovery_magic(), *state),
            r matches Ok(out) ==> decode_outcome(out@, recovery_magic(), Ok(state@)),
            r matches Err(e) ==> exists|ce: CoreError| e == TrustedStateCodecError::Core(ce) && #[trigger] domain_restore_refusal(state@, ce),
    {
        encode_local_scalar_snapshot(state)
    }

    fn decode(&self, bytes: &[u8]) -> (r: Result<LocalScalarSnapshot, TrustedStateCodecError>) {
        decode_local_scalar_snapshot(bytes)
    }
}

/// Why a domain could not be recovered from its trusted state.
#[derive(Debug)]
pub enum ScalarRecoveryError<CodecError> {
    Codec(CodecError),
    Core(CoreError),
}

/// Rebuilds a domain from the trusted state that was committed with its
/// durable sync record: the codec decodes it, then restore checks it.
pub fn recover_scalar_domain<C: TrustedStateCodec<LocalScalarSnapshot>>(
    trusted_state: &[u8],
    codec: &C,
) -> (r: Result<LocalScalarDomain, ScalarRecoveryError<C::Error>>)
    ensures
        exists|dr: Result<LocalScalarSnapshot, C::Error>| #[trigger] codec.decodes(trusted_state@, dr) && match dr {
            Err(e) => r == Err::<LocalScalarDomain, ScalarRecoveryError<C::Error>>(ScalarRecoveryError::Codec(e)),
            Ok(s) => {
                &&& (r is Ok <==> domain_consistent(s@))
                &&& (r matches Ok(d) ==> d@ == s@)
                &&& (r is Err ==> (r matches Err(ScalarRecoveryError::Core(ce)) && domain_restore_refusal(s@, ce)))
            },
        },
{
    let decoded = codec.decode(trusted_state);
    match decoded {
        Err(e) => Err(ScalarRecoveryError::Codec(e)),
        Ok(snapshot) => {
            let ghost s = snapshot;
            match LocalScalarDomain::restore(snapshot) {
                Ok(d) => Ok(d),
                Err(e) => Err(ScalarRecoveryError::Core(e)),
            }
        },
    }
}

} // verus!
