//! Development codec that carries local scalar recovery images across the
//! durability backend, before a native format is frozen.
use vstd::prelude::*;

use crate::domain::{domain_consistent, domain_restore_refusal, DomainModel, LocalScalarSnapshot};
use crate::error::CoreError;
use crate::image::{decode_image, decode_outcome, enc_image, encode_image, image_canonical, snapshot_result_view, ImageError};

verus! {

/// Errors of the development local-scalar recovery codec.
#[derive(Debug, Clone, PartialEq, Eq)]
pub enum SnapshotCodecError {
    InvalidMagic,
    UnsupportedVersion { version: u16 },
    UnexpectedEof,
    LengthOverflow,
    InvalidOptionTag { tag: u8 },
    InvalidStructure(&'static str),
    TrailingBytes,
    Core(CoreError),
}

/// The magic tag of these images, `APCLSNP1`.
pub open spec fn snapshot_magic() -> Seq<u8> {
    seq![0x41u8, 0x50u8, 0x43u8, 0x4cu8, 0x53u8, 0x4eu8, 0x50u8, 0x31u8]
}

fn magic() -> (m: Vec<u8>)
    ensures
        m@ == snapshot_magic(),
{
    let m = vec![0x41, 0x50, 0x43, 0x4c, 0x53, 0x4e, 0x50, 0x31];
    assert(m@ =~= snapshot_magic());
    m
}

/// How this codec reports each refusal of an image.
pub open spec fn snapshot_error(e: ImageError) -> SnapshotCodecError {
    match e {
        ImageError::InvalidMagic => SnapshotCodecError::InvalidMagic,
        ImageError::UnsupportedVersion { version } => SnapshotCodecError::UnsupportedVersion { version },
        ImageError::UnexpectedEof => SnapshotCodecError::UnexpectedEof,
        ImageError::LengthOverflow => SnapshotCodecError::LengthOverflow,
        ImageError::InvalidOptionTag { tag } => SnapshotCodecError::InvalidOptionTag { tag },
        ImageError::DuplicateRevisionInSet => SnapshotCodecError::InvalidStructure("duplicate revision ID in set"),
        ImageError::DuplicateFinalizedStatement => SnapshotCodecError::InvalidStructure(
            "duplicate finalized revision ID",
        ),
        ImageError::TrailingBytes => SnapshotCodecError::TrailingBytes,
        ImageError::Core(c) => SnapshotCodecError::Core(c),
    }
}

fn convert_error(e: ImageError) -> (r: SnapshotCodecError)
    ensures
        r == snapshot_error(e),
{
    match e {
        ImageError::InvalidMagic => SnapshotCodecError::InvalidMagic,
        ImageError::UnsupportedVersion { version } => SnapshotCodecError::UnsupportedVersion { version },
        ImageError::UnexpectedEof => SnapshotCodecError::UnexpectedEof,
        ImageError::LengthOverflow => SnapshotCodecError::LengthOverflow,
        ImageError::InvalidOptionTag { tag } => SnapshotCodecError::InvalidOptionTag { tag },
        ImageError::DuplicateRevisionInSet => SnapshotCodecError::InvalidStructure("duplicate revision ID in set"),
        ImageError::DuplicateFinalizedStatement => SnapshotCodecError::InvalidStructure(
            "duplicate finalized revision ID",
        ),
        ImageError::TrailingBytes => SnapshotCodecError::TrailingBytes,
        ImageError::Core(c) => SnapshotCodecError::Core(c),
    }
}

/// An image decoding outcome as this codec reports it.
pub open spec fn snapshot_codec_result(r: Result<DomainModel, ImageError>) -> Result<DomainModel, SnapshotCodecError> {
    match r {
        Ok(m) => Ok(m),
        Err(e) => Err(snapshot_error(e)),
    }
}

pub open spec fn snapshot_decoded_view(r: Result<LocalScalarSnapshot, SnapshotCodecError>) -> Result<DomainModel, SnapshotCodecError> {
    match r {
        Ok(s) => Ok(s@),
        Err(e) => Err(e),
    }
}

/// Encodes a recovery image. The complete image is checked as restore would
/// check it before any byte is written; decoding the result gives the image
/// back.
pub fn encode_local_scalar_snapshot(snapshot: &LocalScalarSnapshot) -> (r: Result<Vec<u8>, SnapshotCodecError>)
    ensures
        r is Ok <==> domain_consistent(snapshot@),
        r matches Ok(out) ==> out@ == enc_image(snapshot_magic(), *snapshot),
        r matches Ok(out) ==> decode_outcome(out@, snapshot_magic(), Ok(snapshot@)),
        r is Ok ==> image_canonical(*snapshot),
        r matches Err(e) ==> exists|ce: CoreError| e == SnapshotCodecError::Core(ce) && #[trigger] domain_restore_refusal(snapshot@, ce),
{
    let m = magic();
    match encode_image(snapshot, m.as_slice()) {
        Ok(out) => Ok(out),
        Err(e) => Err(convert_error(e)),
    }
}

/// Decodes a recovery image and checks it as restore would.
pub fn decode_local_scalar_snapshot(encoded: &[u8]) -> (r: Result<LocalScalarSnapshot, SnapshotCodecError>)
    ensures
        exists|ir: Result<DomainModel, ImageError>| decode_outcome(encoded@, snapshot_magic(), ir)
            && #[trigger] snapshot_codec_result(ir) == snapshot_decoded_view(r),
{
    let m = magic();
    let r = decode_image(encoded, m.as_slice());
    let ghost ir = snapshot_result_view(r);
    let out = match r {
        Ok(s) => Ok(s),
        Err(e) => Err(convert_error(e)),
    };
    assert(snapshot_codec_result(ir) == snapshot_decoded_view(out));
    out
}

} // verus!
