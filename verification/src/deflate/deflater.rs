use vstd::prelude::*;

use crate::deflate::spec_zlib_inflate;
use crate::error::{PngError, PngResult};

verus! {

#[verifier::external_type_specification]
#[verifier::external_body]
pub struct ExCompressor(libdeflater::Compressor);

#[verifier::external_type_specification]
#[verifier::external_body]
pub struct ExCompressionError(libdeflater::CompressionError);

/// One step of the CRC-32 register: a shift to the right, with the reflected
/// polynomial folded in when the bit shifted out is set.
pub open spec fn crc_shift(c: u32) -> u32 {
    if c & 1 == 1 {
        (c >> 1u32) ^ 0xEDB8_8320u32
    } else {
        c >> 1u32
    }
}

/// `k` steps of the CRC-32 register.
pub open spec fn crc_shifts(c: u32, k: nat) -> u32
    decreases k,
{
    if k == 0 {
        c
    } else {
        crc_shift(crc_shifts(c, (k - 1) as nat))
    }
}

/// The CRC-32 register after the bytes, started from `c`: each byte is
/// folded into the low bits, then shifted through.
pub open spec fn crc_register(c: u32, data: Seq<u8>) -> u32
    decreases data.len(),
{
    if data.len() == 0 {
        c
    } else {
        crc_shifts(crc_register(c, data.drop_last()) ^ (data.last() as u32), 8)
    }
}

/// The CRC-32 (as used by PNG chunks and gzip) of the bytes: the register
/// started with all bits set, inverted at the end.
#[verifier::opaque]
pub open spec fn spec_crc32(data: Seq<u8>) -> u32 {
    !crc_register(0xFFFF_FFFFu32, data)
}

/// `libdeflater::crc32`: the CRC-32 of `data`, as `spec_crc32` states it
/// (libdeflate's reflected CRC-32 with initial value 0).
#[verifier::external_body]
pub(crate) fn crc32(data: &[u8]) -> (r: u32)
    ensures
        r == spec_crc32(data@),
{
    libdeflater::crc32(data)
}

/// The zlib stream that libdeflate produces for `data` at compression `level`.
pub uninterp spec fn spec_libdeflate_zlib(level: u8, data: Seq<u8>) -> Seq<u8>;

/// The raw DEFLATE stream that libdeflate produces for `data` at `level`.
pub uninterp spec fn spec_libdeflate_raw(level: u8, data: Seq<u8>) -> Seq<u8>;

/// libdeflate's worst case for the raw DEFLATE stream of `n` bytes: the bytes
/// themselves, stored in blocks of at least 5000 bytes (one block at the
/// least), each with 5 bytes of header.
pub open spec fn raw_bound(n: int) -> int {
    n + 5 * (if n <= 0 {
        1
    } else {
        (n + 4999) / 5000
    })
}

/// libdeflate's worst case for the zlib stream of `n` bytes: the raw bound
/// and the 6 bytes of the zlib header and checksum.
pub open spec fn zlib_bound(n: int) -> int {
    raw_bound(n) + 6
}

/// A libdeflate compressor together with the level it was made with.
pub struct LevelCompressor {
    level: u8,
    inner: libdeflater::Compressor,
}

impl LevelCompressor {
    /// The compression level of the compressor.
    pub closed spec fn level(&self) -> u8 {
        self.level
    }

    /// `libdeflater::Compressor::new` at `CompressionLvl::new(level)`, which
    /// accepts levels up to 12 (it panics on others, hence the precondition).
    #[verifier::external_body]
    pub(crate) fn new(level: u8) -> (c: LevelCompressor)
        requires
            level <= 12,
        ensures
            c.level() == level,
    {
        LevelCompressor {
            level,
            inner: libdeflater::Compressor::new(libdeflater::CompressionLvl::new(level as i32).unwrap()),
        }
    }

    /// `Compressor::zlib_compress_bound`: as libdeflate documents it (like
    /// the raw DEFLATE bound, with the zlib wrapper), a worst-case bound on the
    /// zlib stream size of any input of at most `n` bytes, computed as
    /// `zlib_bound` states. Where that sum exceeds `usize::MAX` the C code's
    /// arithmetic wraps around, and nothing is claimed of the result.
    #[verifier::external_body]
    pub(crate) fn zlib_compress_bound(&mut self, n: usize) -> (r: usize)
        ensures
            final(self).level() == old(self).level(),
            zlib_bound(n as int) <= usize::MAX ==> r == zlib_bound(n as int),
            zlib_bound(n as int) <= usize::MAX ==> forall|d: Seq<u8>|
                d.len() <= n ==> #[trigger] spec_libdeflate_zlib(old(self).level(), d).len() <= r,
    {
        self.inner.zlib_compress_bound(n)
    }

    /// `Compressor::deflate_compress_bound`: as libdeflate documents it, a
    /// worst-case bound on the raw DEFLATE size of any input of at most `n`
    /// bytes, computed as `raw_bound` states. Where that sum exceeds
    /// `usize::MAX` the C code's arithmetic wraps around, and nothing is
    /// claimed of the result.
    #[verifier::external_body]
    pub(crate) fn deflate_compress_bound(&mut self, n: usize) -> (r: usize)
        ensures
            final(self).level() == old(self).level(),
            raw_bound(n as int) <= usize::MAX ==> r == raw_bound(n as int),
            raw_bound(n as int) <= usize::MAX ==> forall|d: Seq<u8>|
                d.len() <= n ==> #[trigger] spec_libdeflate_raw(old(self).level(), d).len() <= r,
    {
        self.inner.deflate_compress_bound(n)
    }

    /// `Compressor::zlib_compress`: on success the first `n` bytes of `out` hold
    /// the zlib stream of `data`, which depends on the level and the data
    /// alone; `out` keeps its length. It succeeds whenever that stream fits in
    /// `out` (libdeflate returns 0, its failure, only when it does not). Being
    /// a compressor, what it writes decompresses to `data` again.
    #[verifier::external_body]
    pub(crate) fn zlib_compress(&mut self, data: &[u8], out: &mut Vec<u8>) -> (r: Result<usize, libdeflater::CompressionError>)
        ensures
            final(self).level() == old(self).level(),
            final(out)@.len() == old(out)@.len(),
            r matches Ok(n) ==> n <= old(out)@.len() && final(out)@.take(n as int) == spec_libdeflate_zlib(
                old(self).level(),
                data@,
            ),
            r matches Ok(n) ==> spec_zlib_inflate(final(out)@.take(n as int)) == Some(data@),
            spec_libdeflate_zlib(old(self).level(), data@).len() <= old(out)@.len() ==> r is Ok,
    {
        self.inner.zlib_compress(data, out.as_mut_slice())
    }

    /// `Compressor::deflate_compress`: on success the first `n` bytes of `out`
    /// hold the raw DEFLATE stream of `data`, which depends on the level and
    /// the data alone, and is not empty (a size of 0 is how libdeflate reports
    /// failure); `out` keeps its length. It succeeds whenever that stream fits
    /// in `out`.
    #[verifier::external_body]
    pub(crate) fn deflate_compress(&mut self, data: &[u8], out: &mut Vec<u8>) -> (r: Result<usize, libdeflater::CompressionError>)
        ensures
            final(self).level() == old(self).level(),
            final(out)@.len() == old(out)@.len(),
            r matches Ok(n) ==> 1 <= n <= old(out)@.len() && final(out)@.take(n as int)
                == spec_libdeflate_raw(old(self).level(), data@),
            spec_libdeflate_raw(old(self).level(), data@).len() <= old(out)@.len() ==> r is Ok,
    {
        self.inner.deflate_compress(data, out.as_mut_slice())
    }
}

/// Compress `data` into a zlib stream with libdeflate at `level`. With a
/// `max_size`, streams longer than it are refused.
pub fn deflate(data: &[u8], level: u8, max_size: Option<usize>) -> (r: PngResult<Vec<u8>>)
    requires
        level <= 12,
    ensures
        r matches Ok(v) ==> v@ == spec_libdeflate_zlib(level, data@) && (max_size matches Some(m) ==> v.len() <= m),
        r matches Ok(v) ==> spec_zlib_inflate(v@) == Some(data@),
        r matches Err(e) ==> e matches PngError::DeflatedDataTooLong(_),
        max_size matches Some(m) ==> (r is Ok <==> (m <= usize::MAX - 9 && spec_libdeflate_zlib(level, data@).len()
            <= m)),
        max_size is None && zlib_bound(data@.len() as int) <= usize::MAX - 9 ==> r is Ok,
{
    let mut compressor = LevelCompressor::new(level);
    // When adhering to a max_size, libdeflate needs at least 9 extra bytes of slack space.
    let base = match max_size {
        Some(m) => m,
        None => compressor.zlib_compress_bound(data.len()),
    };
    if base > usize::MAX - 9 {
        return Err(PngError::DeflatedDataTooLong(base));
    }
    let capacity = base + 9;
    let mut dest: Vec<u8> = vec![0; capacity];
    let len = match compressor.zlib_compress(data, &mut dest) {
        Ok(n) => n,
        Err(_) => return Err(PngError::DeflatedDataTooLong(capacity)),
    };
    if let Some(max) = max_size {
        if len > max {
            return Err(PngError::DeflatedDataTooLong(max));
        }
    }
    dest.truncate(len);
    Ok(dest)
}

} // verus!
