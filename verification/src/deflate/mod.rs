use vstd::prelude::*;

use crate::error::{PngError, PngResult};

pub mod deflater;
pub mod zopfli_oxipng;

verus! {

/// What zlib decompression with a size limit reported on failure.
pub enum InflateFailure {
    /// The decompressed data would exceed the limit
    LimitExceeded,
    /// The stream is not valid zlib data
    Malformed,
}

/// The bytes that the zlib stream `data` decompresses to, as miniz_oxide
/// decodes it; none when it is not a complete valid zlib stream.
pub uninterp spec fn spec_zlib_inflate(data: Seq<u8>) -> Option<Seq<u8>>;

/// `miniz_oxide::inflate::decompress_to_vec_zlib_with_limit`: it succeeds
/// exactly when the stream decodes completely to at most `limit` bytes, and
/// then gives the whole decompressed stream, a function of the input alone.
/// A valid stream that decodes to more than `limit` bytes stops at the limit
/// (`HasMoreOutput`); an invalid stream may stop either way.
#[verifier::external_body]
fn zlib_decompress_with_limit(data: &[u8], limit: usize) -> (r: Result<Vec<u8>, InflateFailure>)
    ensures
        r is Ok <==> (spec_zlib_inflate(data@) matches Some(v) && v.len() <= limit),
        r matches Ok(v) ==> spec_zlib_inflate(data@) == Some(v@),
        spec_zlib_inflate(data@) matches Some(v) && v.len() > limit ==> r matches Err(InflateFailure::LimitExceeded),
{
    match miniz_oxide::inflate::decompress_to_vec_zlib_with_limit(data, limit) {
        Ok(v) => Ok(v),
        Err(e) => match e.status {
            miniz_oxide::inflate::TINFLStatus::HasMoreOutput => Err(InflateFailure::LimitExceeded),
            _ => Err(InflateFailure::Malformed),
        },
    }
}

/// The zlib stream that miniz_oxide produces for `data` at compression `level`.
pub uninterp spec fn spec_miniz_zlib(level: u8, data: Seq<u8>) -> Seq<u8>;

/// `miniz_oxide::deflate::compress_to_vec_zlib`: the zlib stream of `data` at
/// the given level, a function of the level and the data alone; being a
/// compressor, what it writes decompresses to `data` again.
#[verifier::external_body]
fn miniz_compress_zlib(data: &[u8], level: u8) -> (r: Vec<u8>)
    ensures
        r@ == spec_miniz_zlib(level, data@),
        spec_zlib_inflate(r@) == Some(data@),
{
    miniz_oxide::deflate::compress_to_vec_zlib(data, level)
}

/// Decompress a zlib stream that is expected to hold at most `out_size` bytes
pub fn inflate(data: &[u8], out_size: usize) -> (r: PngResult<Vec<u8>>)
    ensures
        r is Ok <==> (spec_zlib_inflate(data@) matches Some(v) && v.len() <= out_size),
        r matches Ok(v) ==> spec_zlib_inflate(data@) == Some(v@),
        spec_zlib_inflate(data@) matches Some(v) && v.len() > out_size ==> (r matches Err(e) && e
            == PngError::InflatedDataTooLong(out_size)),
        r matches Err(e) ==> e == PngError::InflatedDataTooLong(out_size) || e == PngError::InvalidData,
{
    match zlib_decompress_with_limit(data, out_size) {
        Ok(v) => Ok(v),
        Err(InflateFailure::LimitExceeded) => Err(PngError::InflatedDataTooLong(out_size)),
        Err(InflateFailure::Malformed) => Err(PngError::InvalidData),
    }
}

/// Compress a data stream using the DEFLATE algorithm, in a zlib wrapper
pub fn deflate(data: &[u8], zc: u8) -> (r: PngResult<Vec<u8>>)
    ensures
        r matches Ok(v) && v@ == spec_miniz_zlib(zc, data@),
        r matches Ok(v) ==> spec_zlib_inflate(v@) == Some(data@),
{
    Ok(miniz_compress_zlib(data, zc))
}

/// Compress a data stream using the Zopfli implementation, with its default options
pub fn zopfli_deflate(data: &[u8]) -> (r: PngResult<Vec<u8>>)
    ensures
        r matches Ok(v) && v@ == zopfli_oxipng::spec_zopfli_zlib(15, u64::MAX, 15, data@),
        r matches Ok(v) ==> spec_zlib_inflate(v@) == Some(data@),
{
    zopfli_oxipng::deflate(data, zopfli_oxipng::ZopfliOptions::default())
}

/// DEFLATE algorithms supported by oxipng
#[derive(Clone, Copy, Debug, PartialEq, Eq, Structural)]
pub enum Deflaters {
    /// Use the Zlib/Miniz DEFLATE implementation
    Zlib,
    /// Use the better but slower Zopfli implementation
    Zopfli,
}

} // verus!
