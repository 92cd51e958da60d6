use vstd::prelude::*;

use crate::deflate::spec_zlib_inflate;
use crate::error::{PngError, PngResult};

verus! {

/// The tuning of the Zopfli compressor
#[derive(Clone, Copy, Debug, PartialEq, Eq, Structural)]
pub struct ZopfliOptions {
    /// Maximum number of forward and backward passes per block (at least 1)
    pub iteration_count: u64,
    /// Stop after this many passes without improvement (at least 1)
    pub iterations_without_improvement: u64,
    /// Maximum number of blocks to split into (0 for unlimited)
    pub maximum_block_splits: u16,
}

impl ZopfliOptions {
    /// The defaults of the Zopfli crate: 15 iterations, no limit on
    /// iterations without improvement, 15 block splits.
    pub fn default() -> (o: ZopfliOptions)
        ensures
            o.iteration_count == 15,
            o.iterations_without_improvement == u64::MAX,
            o.maximum_block_splits == 15,
    {
        ZopfliOptions {
            iteration_count: 15,
            iterations_without_improvement: u64::MAX,
            maximum_block_splits: 15,
        }
    }
}

/// The zlib stream that Zopfli produces for `data` with the given options.
pub uninterp spec fn spec_zopfli_zlib(
    iteration_count: u64,
    iterations_without_improvement: u64,
    maximum_block_splits: u16,
    data: Seq<u8>,
) -> Seq<u8>;

/// `zopfli::compress` in the zlib format, writing into a vector. Zopfli is
/// deterministic: the output is a function of the options and the data. It
/// fails only on I/O errors of its reader and writer, which a slice and a
/// vector never raise, so it succeeds; being a compressor, what it writes
/// decompresses to `data` again.
#[verifier::external_body]
fn zopfli_compress_zlib(
    iteration_count: u64,
    iterations_without_improvement: u64,
    maximum_block_splits: u16,
    data: &[u8],
) -> (r: Option<Vec<u8>>)
    requires
        iteration_count >= 1,
        iterations_without_improvement >= 1,
    ensures
        r is Some,
        r matches Some(v) ==> v@ == spec_zopfli_zlib(
            iteration_count,
            iterations_without_improvement,
            maximum_block_splits,
            data@,
        ),
        r matches Some(v) ==> spec_zlib_inflate(v@) == Some(data@),
{
    let options = zopfli::Options {
        iteration_count: std::num::NonZeroU64::new(iteration_count).unwrap(),
        iterations_without_improvement: std::num::NonZeroU64::new(iterations_without_improvement).unwrap(),
        maximum_block_splits,
    };
    let mut output = Vec::with_capacity(data.len());
    match zopfli::compress(options, zopfli::Format::Zlib, Box::new(data), &mut output) {
        Ok(()) => Some(output),
        Err(_) => None,
    }
}

/// Compress `data` into a zlib stream with Zopfli
pub fn deflate(data: &[u8], options: ZopfliOptions) -> (r: PngResult<Vec<u8>>)
    ensures
        (options.iteration_count == 0 || options.iterations_without_improvement == 0) <==> r is Err,
        r matches Ok(v) ==> v@ == spec_zopfli_zlib(
            options.iteration_count,
            options.iterations_without_improvement,
            options.maximum_block_splits,
            data@,
        ),
        r matches Err(e) ==> e matches PngError::Other(_),
        r matches Ok(v) ==> spec_zlib_inflate(v@) == Some(data@),
{
    if options.iteration_count == 0 || options.iterations_without_improvement == 0 {
        return Err(PngError::new("Zopfli iteration counts must be at least 1"));
    }
    match zopfli_compress_zlib(
        options.iteration_count,
        options.iterations_without_improvement,
        options.maximum_block_splits,
        data,
    ) {
        Some(v) => Ok(v),
        None => Err(PngError::new("Failed to compress in zopfli")),
    }
}

} // verus!
