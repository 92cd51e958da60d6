use vstd::prelude::*;

use crate::colors::{BitDepth, ColorType, Rgb16, Rgba8, depth_allowed};
use crate::deflate::deflater::{crc32, spec_crc32};
use crate::error::{PngError, PngResult};

verus! {

/// The data of the IHDR chunk, with the palette and transparency that
/// complete the color type
#[derive(Debug, Clone)]
pub struct IhdrData {
    /// The width of the image in pixels
    pub width: u32,
    /// The height of the image in pixels
    pub height: u32,
    /// The color type of the image
    pub color_type: ColorType,
    /// The bit depth of the image
    pub bit_depth: BitDepth,
    /// Whether the image is Adam7 interlaced
    pub interlaced: bool,
}

/// One scanline in the layout of an image: its interlacing pass, if any, and
/// its length in bytes without the filter type byte.
pub type LineShape = (Option<u8>, int);

/// The number of bytes that hold `pixels` pixels of `bpp` bits.
pub open spec fn line_bytes(pixels: int, bpp: int) -> int {
    (pixels * bpp + 7) / 8
}

/// Start column, start row, column step and row step of Adam7 pass `p`.
pub open spec fn adam7(p: int) -> (int, int, int, int) {
    if p == 1 {
        (0, 0, 8, 8)
    } else if p == 2 {
        (4, 0, 8, 8)
    } else if p == 3 {
        (0, 4, 4, 8)
    } else if p == 4 {
        (2, 0, 4, 4)
    } else if p == 5 {
        (0, 2, 2, 4)
    } else if p == 6 {
        (1, 0, 2, 2)
    } else {
        (0, 1, 1, 2)
    }
}

/// The number of positions `start, start + step, ...` below `size`.
pub open spec fn pass_extent(start: int, step: int, size: int) -> int {
    if size > start {
        (size - start + step - 1) / step
    } else {
        0
    }
}

/// The scanlines of Adam7 pass `p` of an image; empty when the pass has no
/// pixel.
pub open spec fn pass_lines(width: int, height: int, bpp: int, p: int) -> Seq<LineShape> {
    let (xs, ys, dx, dy) = adam7(p);
    let pw = pass_extent(xs, dx, width);
    let ph = pass_extent(ys, dy, height);
    if pw == 0 || ph == 0 {
        Seq::empty()
    } else {
        Seq::new(ph as nat, |k: int| (Some(p as u8), line_bytes(pw, bpp)))
    }
}

/// The scanlines of Adam7 passes `1..=p`, in order.
pub open spec fn passes_upto(width: int, height: int, bpp: int, p: int) -> Seq<LineShape>
    decreases p,
{
    if p <= 0 {
        Seq::empty()
    } else {
        passes_upto(width, height, bpp, p - 1) + pass_lines(width, height, bpp, p)
    }
}

/// The total size of a sequence of scanlines, each preceded by `filter` bytes.
pub open spec fn layout_size(s: Seq<LineShape>, filter: int) -> int
    decreases s.len(),
{
    if s.len() == 0 {
        0
    } else {
        layout_size(s.drop_last(), filter) + s.last().1 + filter
    }
}

pub proof fn lemma_layout_size_append(a: Seq<LineShape>, b: Seq<LineShape>, filter: int)
    ensures
        layout_size(a + b, filter) == layout_size(a, filter) + layout_size(b, filter),
    decreases b.len(),
{
    if b.len() == 0 {
        assert(a + b =~= a);
    } else {
        lemma_layout_size_append(a, b.drop_last(), filter);
        assert((a + b).drop_last() =~= a + b.drop_last());
    }
}

pub proof fn lemma_passes_nonneg(width: int, height: int, bpp: int, p: int)
    requires
        width >= 0,
        bpp >= 0,
    ensures
        forall|k: int|
            0 <= k < passes_upto(width, height, bpp, p).len() ==> (#[trigger] passes_upto(
                width,
                height,
                bpp,
                p,
            )[k]).1 >= 0,
    decreases p,
{
    if p > 0 {
        lemma_passes_nonneg(width, height, bpp, p - 1);
        let (xs, ys, dx, dy) = adam7(p);
        let pw = pass_extent(xs, dx, width);
        assert(pw >= 0);
        assert(pw * bpp >= 0) by (nonlinear_arith)
            requires
                pw >= 0,
                bpp >= 0,
        ;
        let a = passes_upto(width, height, bpp, p - 1);
        let b = pass_lines(width, height, bpp, p);
        assert(passes_upto(width, height, bpp, p) == a + b);
        assert forall|k: int| 0 <= k < (a + b).len() implies (#[trigger] (a + b)[k]).1 >= 0 by {
            if k < a.len() {
                assert((a + b)[k] == a[k]);
            } else {
                assert((a + b)[k] == b[k - a.len()]);
            }
        }
    }
}

pub proof fn lemma_layout_size_nonneg(s: Seq<LineShape>, filter: int)
    requires
        filter >= 0,
        forall|k: int| 0 <= k < s.len() ==> (#[trigger] s[k]).1 >= 0,
    ensures
        layout_size(s, filter) >= 0,
        forall|k: int| 0 <= k <= s.len() ==> layout_size(#[trigger] s.take(k), filter) <= layout_size(s, filter),
    decreases s.len(),
{
    if s.len() > 0 {
        lemma_layout_size_nonneg(s.drop_last(), filter);
        assert forall|k: int| 0 <= k <= s.len() implies layout_size(#[trigger] s.take(k), filter)
            <= layout_size(s, filter) by {
            if k == s.len() {
                assert(s.take(k) =~= s);
            } else {
                assert(s.take(k) =~= s.drop_last().take(k));
            }
        }
    }
}

/// The scanlines of an image of the given size and bits per pixel, in
/// storage order.
pub open spec fn layout_for(width: int, height: int, bpp: int, interlaced: bool) -> Seq<LineShape> {
    if interlaced {
        passes_upto(width, height, bpp, 7)
    } else {
        Seq::new(height as nat, |k: int| (None, line_bytes(width, bpp)))
    }
}

impl IhdrData {
    /// Bits per pixel.
    pub open spec fn spec_bpp(&self) -> int {
        self.bit_depth.spec_bits() * self.color_type.spec_channels()
    }

    /// The scanlines of the image, in storage order.
    pub open spec fn spec_layout(&self) -> Seq<LineShape> {
        layout_for(self.width as int, self.height as int, self.spec_bpp(), self.interlaced)
    }

    /// The size of the decompressed image data, filter bytes included.
    pub open spec fn spec_raw_data_size(&self) -> int {
        layout_size(self.spec_layout(), 1)
    }

    /// Bits per pixel
    pub fn bpp(&self) -> (r: usize)
        ensures
            r == self.spec_bpp(),
            1 <= r <= 64,
    {
        self.bit_depth.as_u8() as usize * self.color_type.channels_per_pixel() as usize
    }
}

/// The number of positions `start, start + step, ...` below `size`.
pub(crate) fn pass_extent_exec(start: u32, step: u32, size: u32) -> (r: u32)
    requires
        1 <= step <= 8,
    ensures
        r == pass_extent(start as int, step as int, size as int),
{
    if size > start {
        let num: u64 = (size - start) as u64 + step as u64 - 1;
        let r = num / step as u64;
        assert(r <= size) by (nonlinear_arith)
            requires
                num == (size - start) + step - 1,
                r == num / (step as u64),
                1 <= step,
                size > start,
        ;
        r as u32
    } else {
        0
    }
}

/// The start column, start row, column step and row step of Adam7 pass `p`.
pub(crate) fn interlaced_constants(p: u8) -> (r: (u32, u32, u32, u32))
    requires
        1 <= p <= 7,
    ensures
        (r.0 as int, r.1 as int, r.2 as int, r.3 as int) == adam7(p as int),
        1 <= r.2 <= 8,
        1 <= r.3 <= 8,
{
    match p {
        1 => (0, 0, 8, 8),
        2 => (4, 0, 8, 8),
        3 => (0, 4, 4, 8),
        4 => (2, 0, 4, 4),
        5 => (0, 2, 2, 4),
        6 => (1, 0, 2, 2),
        _ => (0, 1, 1, 2),
    }
}

/// The number of bytes that hold `pixels` pixels of `bpp` bits.
pub fn line_bytes_exec(pixels: u32, bpp: usize) -> (r: u64)
    requires
        bpp <= 64,
    ensures
        r == line_bytes(pixels as int, bpp as int),
{
    assert((pixels as int) * (bpp as int) <= 0xffff_ffff * 64) by (nonlinear_arith)
        requires
            pixels <= 0xffff_ffff,
            bpp <= 64,
    ;
    let bits: u64 = pixels as u64 * bpp as u64;
    (bits + 7) / 8
}

impl IhdrData {
    /// The scanlines of the image in storage order: the pass of each and its
    /// length in bytes without the filter byte.
    pub fn line_layout(&self) -> (r: Vec<(Option<u8>, u64)>)
        ensures
            r@.len() == self.spec_layout().len(),
            forall|k: int|
                0 <= k < r@.len() ==> (#[trigger] r@[k]).0 == self.spec_layout()[k].0 && r@[k].1
                    == self.spec_layout()[k].1,
    {
        let bpp = self.bpp();
        let mut out: Vec<(Option<u8>, u64)> = Vec::new();
        if !self.interlaced {
            let len = line_bytes_exec(self.width, bpp);
            let mut k: u32 = 0;
            while k < self.height
                invariant
                    !self.interlaced,
                    bpp == self.spec_bpp(),
                    len == line_bytes(self.width as int, bpp as int),
                    k <= self.height,
                    out@.len() == k,
                    forall|j: int|
                        0 <= j < k ==> (#[trigger] out@[j]).0 is None && out@[j].1 == len,
                decreases self.height - k,
            {
                out.push((None, len));
                k += 1;
            }
            return out;
        }
        let mut p: u8 = 1;
        while p <= 7
            invariant
                self.interlaced,
                bpp == self.spec_bpp(),
                bpp <= 64,
                1 <= p <= 8,
                out@.len() == passes_upto(self.width as int, self.height as int, bpp as int, p - 1).len(),
                forall|k: int|
                    0 <= k < out@.len() ==> (#[trigger] out@[k]).0 == passes_upto(
                        self.width as int,
                        self.height as int,
                        bpp as int,
                        p - 1,
                    )[k].0 && out@[k].1 == passes_upto(
                        self.width as int,
                        self.height as int,
                        bpp as int,
                        p - 1,
                    )[k].1,
            decreases 8 - p,
        {
            let ghost before = passes_upto(self.width as int, self.height as int, bpp as int, p - 1);
            let ghost this = pass_lines(self.width as int, self.height as int, bpp as int, p as int);
            assert(passes_upto(self.width as int, self.height as int, bpp as int, p as int) == before
                + this);
            let (xs, ys, dx, dy) = interlaced_constants(p);
            let pw = pass_extent_exec(xs, dx, self.width);
            let ph = pass_extent_exec(ys, dy, self.height);
            if pw != 0 && ph != 0 {
                let len = line_bytes_exec(pw, bpp);
                let mut k: u32 = 0;
                let ghost start = out@.len();
                while k < ph
                    invariant
                        pw != 0,
                        ph != 0,
                        this == Seq::new(ph as nat, |j: int| (Some(p), line_bytes(pw as int, bpp as int))),
                        len == line_bytes(pw as int, bpp as int),
                        start == before.len(),
                        k <= ph,
                        out@.len() == start + k,
                        forall|j: int|
                            0 <= j < start ==> (#[trigger] out@[j]).0 == before[j].0 && out@[j].1
                                == before[j].1,
                        forall|j: int|
                            start <= j < start + k ==> (#[trigger] out@[j]).0 == Some(p) && out@[j].1
                                == len,
                    decreases ph - k,
                {
                    out.push((Some(p), len));
                    k += 1;
                }
            } else {
                assert(this =~= Seq::empty());
            }
            p += 1;
        }
        out
    }

    /// The size of the decompressed image data, filter bytes included, when
    /// it fits in a `usize`.
    pub fn checked_raw_data_size(&self) -> (r: Option<usize>)
        ensures
            r matches Some(v) ==> v == self.spec_raw_data_size(),
            r is None ==> self.spec_raw_data_size() > usize::MAX,
    {
        let layout = self.line_layout();
        let ghost spec = self.spec_layout();
        proof {
            lemma_passes_nonneg(self.width as int, self.height as int, self.spec_bpp(), 7);
            assert forall|k: int| 0 <= k < spec.len() implies (#[trigger] spec[k]).1 >= 0 by {
                if !self.interlaced {
                    assert(self.width as int * self.spec_bpp() >= 0) by (nonlinear_arith)
                        requires
                            self.spec_bpp() >= 0,
                    ;
                }
            }
            lemma_layout_size_nonneg(spec, 1);
        }
        let mut total: usize = 0;
        let mut k: usize = 0;
        while k < layout.len()
            invariant
                layout@.len() == spec.len(),
                spec == self.spec_layout(),
                forall|j: int|
                    0 <= j < layout@.len() ==> (#[trigger] layout@[j]).0 == spec[j].0 && layout@[j].1
                        == spec[j].1,
                forall|j: int| 0 <= j <= spec.len() ==> layout_size(#[trigger] spec.take(j), 1) <= layout_size(spec, 1),
                k <= layout@.len(),
                total == layout_size(spec.take(k as int), 1),
            decreases layout@.len() - k,
        {
            assert(spec.take(k + 1).drop_last() =~= spec.take(k as int));
            let len = layout[k].1;
            if total as u128 + len as u128 + 1 > usize::MAX as u128 {
                assert(layout_size(spec.take(k + 1), 1) <= layout_size(spec, 1));
                return None;
            }
            total = (total as u128 + len as u128 + 1) as usize;
            k += 1;
        }
        assert(spec.take(k as int) =~= spec);
        Some(total)
    }

    /// The size of the decompressed image data, filter bytes included.
    pub fn raw_data_size(&self) -> (r: usize)
        requires
            self.spec_raw_data_size() <= usize::MAX,
        ensures
            r == self.spec_raw_data_size(),
    {
        match self.checked_raw_data_size() {
            Some(v) => v,
            None => 0,
        }
    }
}

/// The big-endian value of two bytes.
pub open spec fn be_u16(s: Seq<u8>, pos: int) -> u16 {
    (s[pos] * 0x100 + s[pos + 1]) as u16
}

/// The big-endian value of four bytes.
pub open spec fn be_u32(s: Seq<u8>, pos: int) -> u32 {
    (s[pos] * 0x1000000 + s[pos + 1] * 0x10000 + s[pos + 2] * 0x100 + s[pos + 3]) as u32
}

/// The big-endian bytes of a `u16`.
pub open spec fn be_bytes_u16(x: u16) -> Seq<u8> {
    seq![(x / 0x100) as u8, (x % 0x100) as u8]
}

/// The big-endian bytes of a `u32`.
pub open spec fn be_bytes_u32(x: u32) -> Seq<u8> {
    seq![
        (x / 0x1000000) as u8,
        ((x / 0x10000) % 0x100) as u8,
        ((x / 0x100) % 0x100) as u8,
        (x % 0x100) as u8,
    ]
}

/// Reading back the bytes of a `u32` gives the `u32`.
pub proof fn lemma_be_u32_roundtrip(x: u32)
    ensures
        be_u32(be_bytes_u32(x), 0) == x,
{
}

/// Reading back the bytes of a `u16` gives the `u16`.
pub proof fn lemma_be_u16_roundtrip(x: u16)
    ensures
        be_u16(be_bytes_u16(x), 0) == x,
{
}

/// Read a big-endian `u16` from the two bytes at `pos`.
pub fn read_be_u16(data: &[u8], pos: usize) -> (r: u16)
    requires
        pos + 2 <= data.len(),
    ensures
        r == be_u16(data@, pos as int),
{
    data[pos] as u16 * 0x100 + data[pos + 1] as u16
}

/// Read a big-endian `u32` from the four bytes at `pos`.
pub fn read_be_u32(data: &[u8], pos: usize) -> (r: u32)
    requires
        pos + 4 <= data.len(),
    ensures
        r == be_u32(data@, pos as int),
{
    data[pos] as u32 * 0x1000000 + data[pos + 1] as u32 * 0x10000 + data[pos + 2] as u32 * 0x100
        + data[pos + 3] as u32
}

/// Append the big-endian bytes of a `u16`.
pub fn push_be_u16(out: &mut Vec<u8>, x: u16)
    ensures
        final(out)@ == old(out)@ + be_bytes_u16(x),
{
    out.push((x / 0x100) as u8);
    out.push((x % 0x100) as u8);
    assert(final(out)@ =~= old(out)@ + be_bytes_u16(x));
}

/// Append the big-endian bytes of a `u32`.
pub fn push_be_u32(out: &mut Vec<u8>, x: u32)
    ensures
        final(out)@ == old(out)@ + be_bytes_u32(x),
{
    out.push((x / 0x1000000) as u8);
    out.push(((x / 0x10000) % 0x100) as u8);
    out.push(((x / 0x100) % 0x100) as u8);
    out.push((x % 0x100) as u8);
    assert(final(out)@ =~= old(out)@ + be_bytes_u32(x));
}

/// Append all of `data`.
pub fn push_all(out: &mut Vec<u8>, data: &[u8])
    ensures
        final(out)@ == old(out)@ + data@,
{
    let mut i: usize = 0;
    while i < data.len()
        invariant
            i <= data.len(),
            out@ == old(out)@ + data@.take(i as int),
        decreases data.len() - i,
    {
        out.push(data[i]);
        i += 1;
        assert(out@ =~= old(out)@ + data@.take(i as int));
    }
    assert(data@.take(i as int) =~= data@);
}

/// A copy of the bytes `start..end`.
pub fn copy_range(data: &[u8], start: usize, end: usize) -> (r: Vec<u8>)
    requires
        start <= end <= data.len(),
    ensures
        r@ == data@.subrange(start as int, end as int),
{
    let mut out: Vec<u8> = Vec::new();
    let mut i: usize = start;
    while i < end
        invariant
            start <= i <= end,
            end <= data.len(),
            out@ == data@.subrange(start as int, i as int),
        decreases end - i,
    {
        out.push(data[i]);
        i += 1;
        assert(out@ =~= data@.subrange(start as int, i as int));
    }
    out
}

/// A chunk of a PNG file: its four-byte name and its data
#[derive(Debug, Clone)]
pub struct Chunk {
    /// The name of the chunk
    pub name: [u8; 4],
    /// The data of the chunk
    pub data: Vec<u8>,
}

/// The name of the IEND chunk, which ends a PNG stream.
pub open spec fn iend_name() -> Seq<u8> {
    seq![73u8, 69u8, 78u8, 68u8]
}

/// The bytes of a chunk as stored in a PNG stream: length, name, data, and
/// the CRC of name and data.
pub open spec fn block_bytes(name: Seq<u8>, data: Seq<u8>) -> Seq<u8> {
    be_bytes_u32(data.len() as u32) + name + data + be_bytes_u32(spec_crc32(name + data))
}

/// What reading a chunk at offset `off` of `bytes` finds.
pub enum ChunkParse {
    /// The stream ends before the chunk does
    Truncated,
    /// An IEND chunk, whose name ends at the offset given
    End(int),
    /// A chunk whose stored CRC does not match, with its name
    BadCrc(Seq<u8>),
    /// A chunk with its name and data, and the offset after it
    Found(Seq<u8>, Seq<u8>, int),
}

/// The PNG chunk stored at offset `off`: a big-endian length `L`, a
/// four-byte name, `L` bytes of data and a big-endian CRC of name and data.
/// The CRC is checked unless `fix_errors`.
pub open spec fn spec_parse_chunk(bytes: Seq<u8>, off: int, fix_errors: bool) -> ChunkParse {
    if off + 4 > bytes.len() {
        ChunkParse::Truncated
    } else {
        let len = be_u32(bytes, off) as int;
        if bytes.len() < off + 12 + len {
            ChunkParse::Truncated
        } else {
            let name = bytes.subrange(off + 4, off + 8);
            if name == iend_name() {
                ChunkParse::End(off + 4)
            } else {
                let data = bytes.subrange(off + 8, off + 8 + len);
                let crc = be_u32(bytes, off + 8 + len);
                if !fix_errors && spec_crc32(bytes.subrange(off + 4, off + 8 + len)) != crc {
                    ChunkParse::BadCrc(name)
                } else {
                    ChunkParse::Found(name, data, off + 12 + len)
                }
            }
        }
    }
}

/// A chunk written by `write_png_block` is read back by `parse_next_chunk`
/// with the same name and data, wherever it stands in a stream, and the
/// reading continues right after it.
pub proof fn lemma_chunk_roundtrip(
    before: Seq<u8>,
    name: Seq<u8>,
    data: Seq<u8>,
    after: Seq<u8>,
    fix_errors: bool,
)
    requires
        name.len() == 4,
        name != iend_name(),
        data.len() <= u32::MAX,
    ensures
        spec_parse_chunk(before + block_bytes(name, data) + after, before.len() as int, fix_errors)
            == ChunkParse::Found(name, data, (before.len() + 12 + data.len()) as int),
{
    let bytes = before + block_bytes(name, data) + after;
    let off = before.len() as int;
    let len = data.len() as int;
    lemma_be_u32_roundtrip(data.len() as u32);
    lemma_be_u32_roundtrip(spec_crc32(name + data));
    assert(bytes.subrange(off, off + 4) =~= be_bytes_u32(data.len() as u32));
    assert(be_u32(bytes, off) == be_u32(be_bytes_u32(data.len() as u32), 0));
    assert(bytes.subrange(off + 4, off + 8) =~= name);
    assert(bytes.subrange(off + 8, off + 8 + len) =~= data);
    assert(bytes.subrange(off + 4, off + 8 + len) =~= name + data);
    assert(bytes.subrange(off + 8 + len, off + 12 + len) =~= be_bytes_u32(spec_crc32(name + data)));
    assert(be_u32(bytes, off + 8 + len) == be_u32(be_bytes_u32(spec_crc32(name + data)), 0));
}

/// Whether the first eight bytes are the PNG signature.
pub open spec fn spec_header_valid(bytes: Seq<u8>) -> bool {
    bytes =~= seq![137u8, 80u8, 78u8, 71u8, 13u8, 10u8, 26u8, 10u8]
}

/// Whether the bytes are the PNG file signature
pub fn file_header_is_valid(bytes: &[u8]) -> (r: bool)
    ensures
        r == spec_header_valid(bytes@),
{
    let expected: [u8; 8] = [137, 80, 78, 71, 13, 10, 26, 10];
    if bytes.len() != 8 {
        return false;
    }
    let mut i: usize = 0;
    while i < 8
        invariant
            bytes.len() == 8,
            i <= 8,
            expected@ == seq![137u8, 80u8, 78u8, 71u8, 13u8, 10u8, 26u8, 10u8],
            forall|k: int| 0 <= k < i ==> bytes@[k] == expected@[k],
        decreases 8 - i,
    {
        if bytes[i] != expected[i] {
            return false;
        }
        i += 1;
    }
    assert(bytes@ =~= expected@);
    true
}

/// Read the chunk at `byte_offset`. Returns `None` at an IEND chunk. The
/// offset advances past the chunk (past the name of an IEND chunk); it stays
/// where it was on an error of truncation.
pub fn parse_next_chunk(byte_data: &[u8], byte_offset: &mut usize, fix_errors: bool) -> (r: PngResult<Option<Chunk>>)
    ensures
        ({
            let off = *old(byte_offset) as int;
            match spec_parse_chunk(byte_data@, off, fix_errors) {
                ChunkParse::Truncated => r matches Err(PngError::TruncatedData) && *final(byte_offset) == off,
                ChunkParse::End(next) => r matches Ok(None) && *final(byte_offset) == next,
                ChunkParse::BadCrc(name) => r matches Err(PngError::CRCMismatch(n)) && n@ == name,
                ChunkParse::Found(name, data, next) => r matches Ok(Some(c)) && c.name@ == name && c.data@
                    == data && *final(byte_offset) == next,
            }
        }),
{
    let off = *byte_offset;
    if off > byte_data.len() || byte_data.len() - off < 4 {
        return Err(PngError::TruncatedData);
    }
    let length = read_be_u32(byte_data, off);
    if (byte_data.len() as u128) < off as u128 + 12 + length as u128 {
        return Err(PngError::TruncatedData);
    }
    let len = length as usize;
    let chunk_start = off + 4;
    let name: [u8; 4] = [
        byte_data[chunk_start],
        byte_data[chunk_start + 1],
        byte_data[chunk_start + 2],
        byte_data[chunk_start + 3],
    ];
    assert(name@ =~= byte_data@.subrange(off + 4, off + 8));
    if name[0] == 73 && name[1] == 69 && name[2] == 78 && name[3] == 68 {
        assert(name@ =~= iend_name());
        *byte_offset = chunk_start;
        return Ok(None);
    }
    assert(name@ != iend_name()) by {
        if name@ == iend_name() {
            assert(name@[0] == 73 && name@[1] == 69 && name@[2] == 78 && name@[3] == 68);
        }
    }
    let data_start = chunk_start + 4;
    let data = copy_range(byte_data, data_start, data_start + len);
    let crc = read_be_u32(byte_data, data_start + len);
    *byte_offset = data_start + len + 4;
    if !fix_errors {
        let chunk_bytes = copy_range(byte_data, chunk_start, data_start + len);
        if crc32(chunk_bytes.as_slice()) != crc {
            return Err(PngError::CRCMismatch(name));
        }
    }
    Ok(Some(Chunk { name, data }))
}

/// Append a chunk with the given name and data to `output`
pub fn write_png_block(key: &[u8; 4], chunk: &[u8], output: &mut Vec<u8>)
    requires
        chunk.len() <= u32::MAX,
    ensures
        final(output)@ == old(output)@ + block_bytes(key@, chunk@),
{
    let mut chunk_data: Vec<u8> = Vec::new();
    push_all(&mut chunk_data, key);
    push_all(&mut chunk_data, chunk);
    push_be_u32(output, chunk.len() as u32);
    let crc = crc32(chunk_data.as_slice());
    push_all(output, chunk_data.as_slice());
    push_be_u32(output, crc);
    assert(final(output)@ =~= old(output)@ + block_bytes(key@, chunk@));
}

impl IhdrData {
    /// Whether the header describes an image that the library can process:
    /// a bit depth that the PNG specification allows for the color type and
    /// at least one pixel.
    pub open spec fn spec_valid(&self) -> bool {
        &&& depth_allowed(self.color_type.spec_header_code(), self.bit_depth.spec_bits())
        &&& self.width >= 1
        &&& self.height >= 1
    }

    /// Bytes per pixel, rounded up to whole bytes (1 for depths below 8).
    pub open spec fn spec_bytes_pp(&self) -> int {
        (if self.bit_depth == BitDepth::Sixteen {
            2int
        } else {
            1int
        }) * self.color_type.spec_channels()
    }

    /// The width in pixels of the scanlines with the given pass tag.
    pub open spec fn spec_tag_width(&self, tag: Option<u8>) -> int {
        match tag {
            None => self.width as int,
            Some(p) => {
                let (xs, ys, dx, dy) = adam7(p as int);
                pass_extent(xs, dx, self.width as int)
            },
        }
    }
}

proof fn lemma_pass_tags(width: int, height: int, bpp: int, p: int)
    requires
        0 <= p <= 7,
    ensures
        forall|k: int|
            0 <= k < passes_upto(width, height, bpp, p).len() ==> {
                let e = #[trigger] passes_upto(width, height, bpp, p)[k];
                &&& e.0 is Some
                &&& 1 <= e.0.unwrap() <= 7
                &&& {
                    let (xs, ys, dx, dy) = adam7(e.0.unwrap() as int);
                    &&& pass_extent(xs, dx, width) >= 1
                    &&& e.1 == line_bytes(pass_extent(xs, dx, width), bpp)
                }
            },
    decreases p,
{
    if p > 0 {
        lemma_pass_tags(width, height, bpp, p - 1);
        let a = passes_upto(width, height, bpp, p - 1);
        let b = pass_lines(width, height, bpp, p);
        assert(passes_upto(width, height, bpp, p) == a + b);
        assert forall|k: int| 0 <= k < (a + b).len() implies {
            let e = #[trigger] (a + b)[k];
            &&& e.0 is Some
            &&& 1 <= e.0.unwrap() <= 7
            &&& {
                let (xs, ys, dx, dy) = adam7(e.0.unwrap() as int);
                &&& pass_extent(xs, dx, width) >= 1
                &&& e.1 == line_bytes(pass_extent(xs, dx, width), bpp)
            }
        } by {
            if k < a.len() {
                assert((a + b)[k] == a[k]);
            } else {
                assert((a + b)[k] == b[k - a.len()]);
                assert((p as u8) as int == p);
            }
        }
    }
}

/// Each scanline of a valid image is as long as the pass it belongs to makes
/// it, and holds at least one whole pixel.
pub proof fn lemma_layout_lines(ihdr: IhdrData)
    requires
        ihdr.spec_valid(),
    ensures
        forall|k: int|
            0 <= k < ihdr.spec_layout().len() ==> {
                let e = #[trigger] ihdr.spec_layout()[k];
                &&& ihdr.spec_tag_width(e.0) >= 1
                &&& e.1 == line_bytes(ihdr.spec_tag_width(e.0), ihdr.spec_bpp())
                &&& e.1 >= ihdr.spec_bytes_pp()
            },
{
    let layout = ihdr.spec_layout();
    lemma_pass_tags(ihdr.width as int, ihdr.height as int, ihdr.spec_bpp(), 7);
    assert forall|k: int| 0 <= k < layout.len() implies {
        let e = #[trigger] layout[k];
        &&& ihdr.spec_tag_width(e.0) >= 1
        &&& e.1 == line_bytes(ihdr.spec_tag_width(e.0), ihdr.spec_bpp())
        &&& e.1 >= ihdr.spec_bytes_pp()
    } by {
        let e = layout[k];
        let w = ihdr.spec_tag_width(e.0);
        let bits = ihdr.spec_bpp();
        let ch = ihdr.color_type.spec_channels() as int;
        assert(w >= 1);
        assert(1 <= ch <= 4);
        if ihdr.bit_depth == BitDepth::Sixteen {
            assert(bits == 16 * ch);
            assert((w * (16 * ch) + 7) / 8 >= 2 * ch) by (nonlinear_arith)
                requires
                    w >= 1,
                    ch >= 1,
            ;
        } else if ihdr.bit_depth == BitDepth::Eight {
            assert(bits == 8 * ch);
            assert((w * (8 * ch) + 7) / 8 >= ch) by (nonlinear_arith)
                requires
                    w >= 1,
                    ch >= 1,
            ;
        } else {
            assert(ch == 1);
            assert(bits >= 1);
            assert((w * bits + 7) / 8 >= 1) by (nonlinear_arith)
                requires
                    w >= 1,
                    bits >= 1,
            ;
        }
    }
}

/// The contents of an optional vector.
pub open spec fn opt_view(o: Option<Vec<u8>>) -> Option<Seq<u8>> {
    match o {
        Some(v) => Some(v@),
        None => None,
    }
}

/// The palette of a PLTE chunk, three bytes per entry, with the alpha values
/// of a tRNS chunk for its first entries (opaque for the others).
pub open spec fn spec_palette(plte: Seq<u8>, trns: Option<Seq<u8>>) -> Seq<Rgba8> {
    Seq::new(
        (plte.len() / 3) as nat,
        |i: int|
            Rgba8 {
                r: plte[3 * i],
                g: plte[3 * i + 1],
                b: plte[3 * i + 2],
                a: match trns {
                    Some(t) => if i < t.len() {
                        t[i]
                    } else {
                        255u8
                    },
                    None => 255u8,
                },
            },
    )
}

/// The palette of an indexed image, from its PLTE and tRNS chunks
fn palette_to_rgba(palette_data: Option<Vec<u8>>, trns_data: Option<Vec<u8>>) -> (r: PngResult<Vec<Rgba8>>)
    ensures
        palette_data is None ==> r matches Err(PngError::Other(_)),
        palette_data matches Some(p) ==> (r matches Ok(v) && v@ == spec_palette(p@, opt_view(trns_data))),
{
    let plte = match palette_data {
        Some(p) => p,
        None => return Err(PngError::new("no palette in indexed image")),
    };
    let ghost tv = opt_view(trns_data);
    let n = plte.len() / 3;
    assert(3 * n <= plte@.len()) by (nonlinear_arith)
        requires
            n == plte@.len() / 3,
    ;
    let mut palette: Vec<Rgba8> = Vec::new();
    let mut i: usize = 0;
    let mut base: usize = 0;
    while i < n
        invariant
            n == plte@.len() / 3,
            3 * n <= plte.len(),
            i <= n,
            base == 3 * i,
            tv == opt_view(trns_data),
            palette@ =~= spec_palette(plte@, tv).take(i as int),
        decreases n - i,
    {
        let a = match &trns_data {
            Some(t) => if i < t.len() {
                t[i]
            } else {
                255
            },
            None => 255,
        };
        palette.push(Rgba8::new(plte[base], plte[base + 1], plte[base + 2], a));
        i += 1;
        base += 3;
    }
    assert(spec_palette(plte@, tv).take(n as int) =~= spec_palette(plte@, tv));
    Ok(palette)
}

/// The number of channels of the color type with this code.
pub open spec fn channels_of_code(code: u8) -> int {
    if code == 2 {
        3
    } else if code == 4 {
        2
    } else if code == 6 {
        4
    } else {
        1
    }
}

/// Whether an IHDR chunk (with a PLTE chunk or not) describes an image that
/// the library reads.
pub open spec fn ihdr_ok(b: Seq<u8>, has_plte: bool) -> bool {
    let code = b[9];
    &&& b.len() >= 13
    &&& (code == 0 || code == 2 || code == 3 || code == 4 || code == 6)
    &&& code == 3 ==> has_plte
    &&& BitDepth::spec_from_bits(b[8]) is Some
    &&& depth_allowed(code, b[8])
    &&& be_u32(b, 0) != 0
    &&& be_u32(b, 4) != 0
}

/// The size of the decompressed data of the image that an IHDR chunk
/// describes, filter bytes included.
pub open spec fn ihdr_raw_size(b: Seq<u8>) -> int {
    layout_size(layout_for(be_u32(b, 0) as int, be_u32(b, 4) as int, b[8] * channels_of_code(b[9]), b[12] == 1), 1)
}

/// The error with which reading an IHDR chunk fails.
pub open spec fn ihdr_error(e: PngError, b: Seq<u8>, has_plte: bool) -> bool {
    let code = b[9];
    let bits = b[8];
    if b.len() < 13 {
        e == PngError::TruncatedData
    } else if !(code == 0 || code == 2 || code == 3 || code == 4 || code == 6) || (code == 3 && !has_plte) {
        e is Other
    } else if BitDepth::spec_from_bits(bits) is None {
        e is Other
    } else if !depth_allowed(code, bits) {
        e is InvalidDepthForType
    } else {
        e == PngError::InvalidData
    }
}

/// The header read from an IHDR chunk, with the PLTE and tRNS chunks.
pub open spec fn ihdr_fields(h: IhdrData, b: Seq<u8>, plte: Option<Seq<u8>>, tv: Option<Seq<u8>>) -> bool {
    let code = b[9];
    &&& h.width == be_u32(b, 0)
    &&& h.height == be_u32(b, 4)
    &&& BitDepth::spec_from_bits(b[8]) == Some(h.bit_depth)
    &&& h.interlaced == (b[12] == 1)
    &&& h.color_type.spec_header_code() == code
    &&& h.spec_valid()
    &&& h.spec_raw_data_size() == ihdr_raw_size(b)
    &&& code == 0 ==> h.color_type == ColorType::Grayscale {
        transparent_shade: match tv {
            Some(t) => if t.len() >= 2 {
                Some(be_u16(t, 0))
            } else {
                None
            },
            None => None,
        },
    }
    &&& code == 2 ==> h.color_type == ColorType::RGB {
        transparent_color: match tv {
            Some(t) => if t.len() >= 6 {
                Some(Rgb16 { r: be_u16(t, 0), g: be_u16(t, 2), b: be_u16(t, 4) })
            } else {
                None
            },
            None => None,
        },
    }
    &&& code == 3 ==> (h.color_type matches ColorType::Indexed { palette } && plte matches Some(p)
        && palette@ == spec_palette(p, tv))
}

/// The IHDR chunk fixes the layout of the image that is read from it: any
/// two headers read from it lay their scanlines out alike.
pub proof fn lemma_fields_determine_layout(
    a: IhdrData,
    b: IhdrData,
    h: Seq<u8>,
    plte: Option<Seq<u8>>,
    trns: Option<Seq<u8>>,
)
    requires
        ihdr_fields(a, h, plte, trns),
        ihdr_fields(b, h, plte, trns),
    ensures
        a.spec_layout() == b.spec_layout(),
        a.spec_bytes_pp() == b.spec_bytes_pp(),
        a.spec_bpp() == b.spec_bpp(),
{
    assert(a.bit_depth == b.bit_depth);
    assert(a.color_type.spec_header_code() == b.color_type.spec_header_code());
    assert(a.color_type.spec_channels() == b.color_type.spec_channels());
}

/// Read the IHDR chunk, with the PLTE and tRNS chunks when the image has
/// them, into the header of the image. The bit depth must be one that the
/// PNG specification allows for the color type, and the image must have at
/// least one pixel.
pub fn parse_ihdr_chunk(byte_data: &[u8], palette_data: Option<Vec<u8>>, trns_data: Option<Vec<u8>>) -> (r: PngResult<IhdrData>)
    ensures
        r is Ok <==> ihdr_ok(byte_data@, palette_data is Some),
        r matches Ok(h) ==> ihdr_fields(h, byte_data@, opt_view(palette_data), opt_view(trns_data)),
        r matches Err(e) ==> ihdr_error(e, byte_data@, palette_data is Some),
{
    if byte_data.len() < 13 {
        return Err(PngError::TruncatedData);
    }
    let code = byte_data[9];
    let color_type = if code == 0 {
        let shade = match &trns_data {
            Some(t) => if t.len() >= 2 {
                Some(read_be_u16(t.as_slice(), 0))
            } else {
                None
            },
            None => None,
        };
        ColorType::Grayscale { transparent_shade: shade }
    } else if code == 2 {
        let color = match &trns_data {
            Some(t) => if t.len() >= 6 {
                Some(
                    Rgb16 {
                        r: read_be_u16(t.as_slice(), 0),
                        g: read_be_u16(t.as_slice(), 2),
                        b: read_be_u16(t.as_slice(), 4),
                    },
                )
            } else {
                None
            },
            None => None,
        };
        ColorType::RGB { transparent_color: color }
    } else if code == 3 {
        ColorType::Indexed { palette: palette_to_rgba(palette_data, trns_data)? }
    } else if code == 4 {
        ColorType::GrayscaleAlpha
    } else if code == 6 {
        ColorType::RGBA
    } else {
        return Err(PngError::new("Unexpected color type in header"));
    };
    let bit_depth = match BitDepth::from_u8(byte_data[8]) {
        Some(d) => d,
        None => return Err(PngError::new("Unexpected bit depth")),
    };
    if !depth_is_allowed(code, bit_depth.as_u8()) {
        return Err(PngError::InvalidDepthForType(bit_depth, color_type));
    }
    let width = read_be_u32(byte_data, 0);
    let height = read_be_u32(byte_data, 4);
    if width == 0 || height == 0 {
        return Err(PngError::InvalidData);
    }
    let h = IhdrData { width, height, color_type, bit_depth, interlaced: byte_data[12] == 1 };
    assert(h.spec_bpp() == byte_data@[8] * channels_of_code(code));
    Ok(h)
}

/// Whether the PNG specification allows the bit depth for the color type.
fn depth_is_allowed(color_code: u8, bits: u8) -> (r: bool)
    ensures
        r == depth_allowed(color_code, bits),
{
    if color_code == 0 {
        bits == 1 || bits == 2 || bits == 4 || bits == 8 || bits == 16
    } else if color_code == 3 {
        bits == 1 || bits == 2 || bits == 4 || bits == 8
    } else {
        bits == 8 || bits == 16
    }
}

} // verus!
