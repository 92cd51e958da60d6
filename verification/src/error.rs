use vstd::prelude::*;

use crate::colors::{BitDepth, ColorType};

verus! {

/// An error of the I/O layer, carried through unchanged.
#[verifier::external_type_specification]
#[verifier::external_body]
pub struct ExIoError(std::io::Error);

/// The ways in which reading, optimising or writing an image can fail.
#[derive(Debug)]
#[non_exhaustive]
pub enum PngError {
    APNGOutOfOrder,
    C2PAMetadataPreventsChanges,
    ChunkMissing(&'static str),
    CRCMismatch([u8; 4]),
    DeflatedDataTooLong(usize),
    IncorrectDataLength(usize, usize),
    InflatedDataTooLong(usize),
    InvalidData,
    InvalidDepthForType(BitDepth, ColorType),
    NotPNG,
    ReadFailed(String, std::io::Error),
    TruncatedData,
    WriteFailed(String, std::io::Error),
    Other(String),
}

/// The result of the operations of this library.
pub type PngResult<T> = Result<T, PngError>;

impl PngError {
    /// An error with a free-form description.
    pub fn new(description: &str) -> (e: PngError)
        ensures
            e matches PngError::Other(s) && s@ == description@,
    {
        PngError::Other(description.to_owned())
    }
}

} // verus!
