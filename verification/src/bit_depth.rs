//! Samples of fewer than eight bits: reading them out of packed scanlines,
//! one byte each, and packing them back.
use vstd::prelude::*;

use crate::colors::{BitDepth, ColorType};
use crate::headers::{IhdrData, LineShape, adam7, layout_for, layout_size, line_bytes, pass_extent, pass_lines, passes_upto};

verus! {

/// Whether `d` is a depth below a byte: 1, 2 or 4 bits.
pub open spec fn low_depth(d: u8) -> bool {
    d == 1 || d == 2 || d == 4
}

/// How many samples of `d` bits a byte holds.
pub open spec fn per_byte(d: u8) -> int {
    if d == 1 {
        8
    } else if d == 2 {
        4
    } else {
        2
    }
}

/// The mask of the low `d` bits.
pub open spec fn sample_mask(d: u8) -> u8 {
    if d == 1 {
        1
    } else if d == 2 {
        3
    } else {
        15
    }
}

/// How far sample `t` of a byte lies from its low end: the first sample
/// takes the high bits.
pub open spec fn sample_shift(d: u8, t: int) -> u8 {
    (8 - d - t * d) as u8
}

/// Sample `t` of a byte.
pub open spec fn sample(byte: u8, d: u8, t: int) -> u8 {
    (byte >> sample_shift(d, t)) & sample_mask(d)
}

/// The bytes of the first `k` lines, each `line_bytes` long.
pub open spec fn bytes_before(widths: Seq<int>, d: u8, k: int) -> int
    decreases k,
{
    if k <= 0 {
        0
    } else {
        bytes_before(widths, d, k - 1) + line_bytes(widths[k - 1], d as int)
    }
}

/// The pixels of the first `k` lines.
pub open spec fn pixels_before(widths: Seq<int>, k: int) -> int
    decreases k,
{
    if k <= 0 {
        0
    } else {
        pixels_before(widths, k - 1) + widths[k - 1]
    }
}

/// The `n` samples of the line that starts at byte `start`.
pub open spec fn line_samples(data: Seq<u8>, start: int, n: int, d: u8) -> Seq<u8> {
    Seq::new(n as nat, |j: int| sample(data[start + j / per_byte(d)], d, j % per_byte(d)))
}

/// The samples of the first `k` lines, one byte each.
pub open spec fn unpacked_upto(data: Seq<u8>, widths: Seq<int>, d: u8, k: int) -> Seq<u8>
    decreases k,
{
    if k <= 0 {
        Seq::empty()
    } else {
        unpacked_upto(data, widths, d, k - 1) + line_samples(data, bytes_before(widths, d, k - 1), widths[k - 1], d)
    }
}

/// The samples of packed lines of the given widths, one byte each.
pub open spec fn unpacked(data: Seq<u8>, widths: Seq<int>, d: u8) -> Seq<u8> {
    unpacked_upto(data, widths, d, widths.len() as int)
}

/// Sample `j` of a line of `n` samples that starts at `start`; 0 past its end.
pub open spec fn value_or_zero(vals: Seq<u8>, start: int, n: int, j: int) -> u8 {
    if j < n {
        vals[start + j]
    } else {
        0
    }
}

/// Byte `i` of a packed line, from its first `t` samples.
pub open spec fn pack_bits(vals: Seq<u8>, start: int, n: int, i: int, d: u8, t: int) -> u8
    decreases t,
{
    if t <= 0 {
        0
    } else {
        pack_bits(vals, start, n, i, d, t - 1) | ((value_or_zero(vals, start, n, i * per_byte(d) + t - 1)
            & sample_mask(d)) << sample_shift(d, t - 1))
    }
}

/// The packed bytes of the line of `n` samples that starts at `start`.
pub open spec fn pack_line(vals: Seq<u8>, start: int, n: int, d: u8) -> Seq<u8> {
    Seq::new(line_bytes(n, d as int) as nat, |i: int| pack_bits(vals, start, n, i, d, per_byte(d)))
}

/// The packed bytes of the first `k` lines.
pub open spec fn packed_upto(vals: Seq<u8>, widths: Seq<int>, d: u8, k: int) -> Seq<u8>
    decreases k,
{
    if k <= 0 {
        Seq::empty()
    } else {
        packed_upto(vals, widths, d, k - 1) + pack_line(vals, pixels_before(widths, k - 1), widths[k - 1], d)
    }
}

/// Samples, one byte each, packed into lines of the given widths; the bits
/// past the last sample of a line are zero.
pub open spec fn packed(vals: Seq<u8>, widths: Seq<int>, d: u8) -> Seq<u8> {
    packed_upto(vals, widths, d, widths.len() as int)
}

/// The widths of lines as integers.
pub open spec fn widths_of(w: Seq<u32>) -> Seq<int> {
    w.map_values(|x: u32| x as int)
}

proof fn lemma_index_in_line(j: int, n: int, d: u8)
    requires
        low_depth(d),
        0 <= j < n,
    ensures
        0 <= j / per_byte(d) < line_bytes(n, d as int),
        0 <= j % per_byte(d) < per_byte(d),
{
}

fn sample_exec(byte: u8, d: u8, t: usize) -> (r: u8)
    requires
        low_depth(d),
        t < per_byte(d),
    ensures
        r == sample(byte, d, t as int),
{
    let mask: u8 = if d == 1 {
        1
    } else if d == 2 {
        3
    } else {
        15
    };
    let shift: u8 = 8 - d - (t as u8) * d;
    (byte >> shift) & mask
}

/// Read the samples of packed lines of the given widths, one byte each.
pub fn unpack_samples(data: &Vec<u8>, widths: &Vec<u32>, d: u8) -> (r: Vec<u8>)
    requires
        low_depth(d),
        data@.len() == bytes_before(widths_of(widths@), d, widths@.len() as int),
        pixels_before(widths_of(widths@), widths@.len() as int) <= usize::MAX,
    ensures
        r@ == unpacked(data@, widths_of(widths@), d),
        r@.len() == pixels_before(widths_of(widths@), widths@.len() as int),
{
    let ghost ws = widths_of(widths@);
    let per: usize = if d == 1 {
        8
    } else if d == 2 {
        4
    } else {
        2
    };
    let mut out: Vec<u8> = Vec::new();
    let mut pos: usize = 0;
    let mut k: usize = 0;
    let dlen = data.len();
    proof {
        assert forall|i: int| 0 <= i < ws.len() implies ws[i] >= 0 by {
            assert(ws[i] == widths@[i] as int);
        }
        lemma_before_mono(ws, d, widths@.len() as int);
    }
    while k < widths.len()
        invariant
            low_depth(d),
            per == per_byte(d),
            ws == widths_of(widths@),
            data@.len() == bytes_before(ws, d, widths@.len() as int),
            dlen == data@.len(),
            pixels_before(ws, widths@.len() as int) <= usize::MAX,
            forall|i: int| 0 <= i <= widths@.len() ==> #[trigger] bytes_before(ws, d, i) <= bytes_before(ws, d, widths@.len() as int),
            forall|i: int| 0 <= i <= widths@.len() ==> #[trigger] pixels_before(ws, i) <= pixels_before(ws, widths@.len() as int),
            k <= widths@.len(),
            pos == bytes_before(ws, d, k as int),
            out@ == unpacked_upto(data@, ws, d, k as int),
            out@.len() == pixels_before(ws, k as int),
        decreases widths@.len() - k,
    {
        let n = widths[k] as usize;
        assert(ws[k as int] == n);
        assert(bytes_before(ws, d, k + 1) == pos + line_bytes(n as int, d as int));
        assert(pixels_before(ws, k + 1) == out@.len() + n);
        let ghost before = out@;
        let mut j: usize = 0;
        while j < n
            invariant
                low_depth(d),
                per == per_byte(d),
                n == ws[k as int],
                pos + line_bytes(n as int, d as int) <= data@.len(),
                dlen == data@.len(),
                before.len() + n <= usize::MAX,
                j <= n,
                out@ == before + line_samples(data@, pos as int, n as int, d).take(j as int),
            decreases n - j,
        {
            proof {
                lemma_index_in_line(j as int, n as int, d);
            }
            let byte = data[pos + j / per];
            let v = sample_exec(byte, d, j % per);
            out.push(v);
            j += 1;
            assert(out@ =~= before + line_samples(data@, pos as int, n as int, d).take(j as int));
        }
        assert(line_samples(data@, pos as int, n as int, d).take(n as int) =~= line_samples(data@, pos as int, n as int, d));
        let nb = crate::headers::line_bytes_exec(widths[k], d as usize) as usize;
        pos = pos + nb;
        k += 1;
    }
    out
}

proof fn lemma_before_mono(ws: Seq<int>, d: u8, n: int)
    requires
        low_depth(d),
        forall|i: int| 0 <= i < ws.len() ==> ws[i] >= 0,
        0 <= n <= ws.len(),
    ensures
        forall|i: int| 0 <= i <= n ==> #[trigger] bytes_before(ws, d, i) <= bytes_before(ws, d, n),
        forall|i: int| 0 <= i <= n ==> #[trigger] pixels_before(ws, i) <= pixels_before(ws, n),
        bytes_before(ws, d, n) >= 0,
        pixels_before(ws, n) >= 0,
    decreases n,
{
    if n > 0 {
        lemma_before_mono(ws, d, n - 1);
        assert(line_bytes(ws[n - 1], d as int) >= 0) by (nonlinear_arith)
            requires
                ws[n - 1] >= 0,
                d >= 1,
                line_bytes(ws[n - 1], d as int) == (ws[n - 1] * d + 7) / 8,
        ;
    }
}


/// Pack samples, one byte each, into lines of the given widths.
pub fn pack_samples(vals: &Vec<u8>, widths: &Vec<u32>, d: u8) -> (r: Vec<u8>)
    requires
        low_depth(d),
        vals@.len() == pixels_before(widths_of(widths@), widths@.len() as int),
        bytes_before(widths_of(widths@), d, widths@.len() as int) <= usize::MAX,
    ensures
        r@ == packed(vals@, widths_of(widths@), d),
        r@.len() == bytes_before(widths_of(widths@), d, widths@.len() as int),
{
    let ghost ws = widths_of(widths@);
    let per: usize = if d == 1 {
        8
    } else if d == 2 {
        4
    } else {
        2
    };
    let mask: u8 = if d == 1 {
        1
    } else if d == 2 {
        3
    } else {
        15
    };
    let mut out: Vec<u8> = Vec::new();
    let mut start: usize = 0;
    let mut k: usize = 0;
    let vlen = vals.len();
    proof {
        assert forall|i: int| 0 <= i < ws.len() implies ws[i] >= 0 by {
            assert(ws[i] == widths@[i] as int);
        }
        lemma_before_mono(ws, d, widths@.len() as int);
    }
    while k < widths.len()
        invariant
            low_depth(d),
            per == per_byte(d),
            mask == sample_mask(d),
            ws == widths_of(widths@),
            vals@.len() == pixels_before(ws, widths@.len() as int),
            vlen == vals@.len(),
            bytes_before(ws, d, widths@.len() as int) <= usize::MAX,
            forall|i: int| 0 <= i <= widths@.len() ==> #[trigger] bytes_before(ws, d, i) <= bytes_before(ws, d, widths@.len() as int),
            forall|i: int| 0 <= i <= widths@.len() ==> #[trigger] pixels_before(ws, i) <= pixels_before(ws, widths@.len() as int),
            k <= widths@.len(),
            start == pixels_before(ws, k as int),
            out@ == packed_upto(vals@, ws, d, k as int),
            out@.len() == bytes_before(ws, d, k as int),
        decreases widths@.len() - k,
    {
        let n = widths[k] as usize;
        assert(ws[k as int] == n);
        assert(bytes_before(ws, d, k + 1) == out@.len() + line_bytes(n as int, d as int));
        assert(pixels_before(ws, k + 1) == start + n);
        let nb = crate::headers::line_bytes_exec(widths[k], d as usize) as usize;
        let ghost before = out@;
        let mut i: usize = 0;
        while i < nb
            invariant
                low_depth(d),
                per == per_byte(d),
                mask == sample_mask(d),
                n == ws[k as int],
                nb == line_bytes(n as int, d as int),
                start + n <= vals@.len(),
                vlen == vals@.len(),
                before.len() + nb <= usize::MAX,
                i <= nb,
                out@ == before + pack_line(vals@, start as int, n as int, d).take(i as int),
            decreases nb - i,
        {
            let mut b: u8 = 0;
            let mut t: usize = 0;
            proof {
                lemma_byte_span(i as int, n as int, d);
            }
            while t < per
                invariant
                    low_depth(d),
                    per == per_byte(d),
                    mask == sample_mask(d),
                    i < nb,
                    nb == line_bytes(n as int, d as int),
                    i * per + per <= n + 8,
                    start + n <= vals@.len(),
                    vlen == vals@.len(),
                    t <= per,
                    b == pack_bits(vals@, start as int, n as int, i as int, d, t as int),
                decreases per - t,
            {
                let j = i * per + t;
                let x: u8 = if j < n {
                    vals[start + j]
                } else {
                    0
                };
                let shift: u8 = 8 - d - (t as u8) * d;
                b = b | ((x & mask) << shift);
                t += 1;
            }
            out.push(b);
            i += 1;
            assert(out@ =~= before + pack_line(vals@, start as int, n as int, d).take(i as int));
        }
        assert(pack_line(vals@, start as int, n as int, d).take(nb as int) =~= pack_line(vals@, start as int, n as int, d));
        start = start + n;
        k += 1;
    }
    out
}

/// The samples that a byte of a line holds lie at most a byte's worth past
/// the line's end.
proof fn lemma_byte_span(i: int, n: int, d: u8)
    requires
        low_depth(d),
        0 <= i < line_bytes(n, d as int),
        n >= 0,
    ensures
        i * per_byte(d) + per_byte(d) <= n + 8,
{
}


/// The widths in pixels of the scanlines of a `w` by `h` image, in storage
/// order: at eight bits per pixel a line holds one byte per pixel.
pub open spec fn line_widths(w: int, h: int, interlaced: bool) -> Seq<int> {
    layout_for(w, h, 8, interlaced).map_values(|e: LineShape| e.1)
}

pub proof fn lemma_pass_extent_bound(start: int, step: int, size: int)
    requires
        0 <= start,
        1 <= step,
        size >= 0,
    ensures
        0 <= pass_extent(start, step, size) <= size,
{
    if size > start {
        assert((size - start + step - 1) / step <= size) by (nonlinear_arith)
            requires
                size > start,
                start >= 0,
                step >= 1,
        ;
        assert((size - start + step - 1) / step >= 0) by (nonlinear_arith)
            requires
                size > start,
                step >= 1,
        ;
    }
}

proof fn lemma_passes_depths(w: int, h: int, d: int, p: int)
    requires
        w >= 0,
        h >= 0,
        d >= 1,
        0 <= p <= 7,
    ensures
        passes_upto(w, h, d, p).len() == passes_upto(w, h, 8, p).len(),
        forall|k: int|
            0 <= k < passes_upto(w, h, d, p).len() ==> {
                &&& (#[trigger] passes_upto(w, h, d, p)[k]).1 == line_bytes(passes_upto(w, h, 8, p)[k].1, d)
                &&& 0 <= passes_upto(w, h, 8, p)[k].1 <= w
            },
    decreases p,
{
    if p > 0 {
        lemma_passes_depths(w, h, d, p - 1);
        let (xs, ys, dx, dy) = adam7(p);
        let pw = pass_extent(xs, dx, w);
        lemma_pass_extent_bound(xs, dx, w);
        assert(line_bytes(pw, 8) == pw);
        let ad = passes_upto(w, h, d, p - 1);
        let a8 = passes_upto(w, h, 8, p - 1);
        let bd = pass_lines(w, h, d, p);
        let b8 = pass_lines(w, h, 8, p);
        assert(passes_upto(w, h, d, p) == ad + bd);
        assert(passes_upto(w, h, 8, p) == a8 + b8);
        assert forall|k: int| 0 <= k < (ad + bd).len() implies {
            &&& (#[trigger] (ad + bd)[k]).1 == line_bytes((a8 + b8)[k].1, d)
            &&& 0 <= (a8 + b8)[k].1 <= w
        } by {
            if k < ad.len() {
                assert((ad + bd)[k] == ad[k]);
                assert((a8 + b8)[k] == a8[k]);
                assert(ad[k] == passes_upto(w, h, d, p - 1)[k]);
            } else {
                assert((ad + bd)[k] == bd[k - ad.len()]);
                assert((a8 + b8)[k] == b8[k - a8.len()]);
            }
        }
    }
}

/// The scanlines of an image at any depth are those of its line widths, each
/// `line_bytes` long, and no line is wider than the image.
pub proof fn lemma_layout_depths(w: int, h: int, d: int, interlaced: bool)
    requires
        w >= 0,
        h >= 0,
        d >= 1,
    ensures
        layout_for(w, h, d, interlaced).len() == line_widths(w, h, interlaced).len(),
        forall|k: int|
            0 <= k < line_widths(w, h, interlaced).len() ==> {
                &&& (#[trigger] layout_for(w, h, d, interlaced)[k]).1 == line_bytes(line_widths(w, h, interlaced)[k], d)
                &&& 0 <= line_widths(w, h, interlaced)[k] <= w
            },
{
    if interlaced {
        lemma_passes_depths(w, h, d, 7);
    } else {
        assert(line_bytes(w, 8) == w);
    }
}

/// The bytes of the first `k` lines are what their layout adds up to.
pub proof fn lemma_bytes_before_layout(layout: Seq<LineShape>, widths: Seq<int>, d: u8, k: int)
    requires
        layout.len() == widths.len(),
        0 <= k <= widths.len(),
        forall|i: int| 0 <= i < widths.len() ==> (#[trigger] layout[i]).1 == line_bytes(widths[i], d as int),
    ensures
        bytes_before(widths, d, k) == layout_size(layout.take(k), 0),
    decreases k,
{
    if k > 0 {
        lemma_bytes_before_layout(layout, widths, d, k - 1);
        assert(layout.take(k).drop_last() =~= layout.take(k - 1));
    } else {
        assert(layout.take(0) =~= Seq::<LineShape>::empty());
    }
}

/// The line widths of an image add up to its pixels.
pub proof fn lemma_line_widths_total(w: int, h: int, interlaced: bool)
    requires
        w >= 0,
        h >= 0,
    ensures
        pixels_before(line_widths(w, h, interlaced), line_widths(w, h, interlaced).len() as int)
            == layout_size(layout_for(w, h, 8, interlaced), 0),
{
    let ws = line_widths(w, h, interlaced);
    let l8 = layout_for(w, h, 8, interlaced);
    lemma_layout_depths(w, h, 8, interlaced);
    assert forall|i: int| 0 <= i < ws.len() implies (#[trigger] l8[i]).1 == line_bytes(ws[i], 8u8 as int) by {
        assert(l8[i].1 == line_bytes(ws[i], 8));
    }
    lemma_bytes_before_layout(l8, ws, 8u8, ws.len() as int);
    lemma_pixels_bytes8(ws, ws.len() as int);
    assert(l8.take(ws.len() as int) =~= l8);
}

proof fn lemma_pixels_bytes8(ws: Seq<int>, k: int)
    requires
        0 <= k <= ws.len(),
    ensures
        bytes_before(ws, 8u8, k) == pixels_before(ws, k),
    decreases k,
{
    if k > 0 {
        lemma_pixels_bytes8(ws, k - 1);
        assert(line_bytes(ws[k - 1], 8) == ws[k - 1]);
    }
}

/// The line widths of a `w` by `h` image.
pub fn line_widths_exec(w: u32, h: u32, interlaced: bool) -> (r: Vec<u32>)
    requires
        w >= 1,
        h >= 1,
    ensures
        widths_of(r@) == line_widths(w as int, h as int, interlaced),
{
    let ihdr8 = IhdrData {
        width: w,
        height: h,
        color_type: ColorType::Grayscale { transparent_shade: None },
        bit_depth: BitDepth::Eight,
        interlaced,
    };
    let layout = ihdr8.line_layout();
    let ghost ws = line_widths(w as int, h as int, interlaced);
    proof {
        assert(ihdr8.bit_depth.spec_bits() == 8);
        assert(ihdr8.color_type.spec_channels() == 1);
        assert(ihdr8.spec_bpp() == 8);
        lemma_layout_depths(w as int, h as int, 8, interlaced);
    }
    let mut out: Vec<u32> = Vec::new();
    let mut k: usize = 0;
    while k < layout.len()
        invariant
            ws == line_widths(w as int, h as int, interlaced),
            layout@.len() == ws.len(),
            forall|i: int| 0 <= i < layout@.len() ==> (#[trigger] layout@[i]).1 == ws[i],
            forall|i: int| 0 <= i < ws.len() ==> 0 <= #[trigger] ws[i] <= w,
            k <= layout@.len(),
            out@.len() == k,
            forall|i: int| 0 <= i < k ==> (#[trigger] out@[i]) as int == ws[i],
        decreases layout@.len() - k,
    {
        assert(layout@[k as int].1 == ws[k as int]);
        out.push(layout[k].1 as u32);
        k += 1;
    }
    assert(widths_of(out@) =~= ws);
    out
}


proof fn lemma_fields_1(x0: u8, x1: u8, x2: u8, x3: u8, x4: u8, x5: u8, x6: u8, x7: u8, b: u8)
    by (bit_vector)
    requires
        b == ((((((((0u8 | ((x0 & 1u8) << 7u8)) | ((x1 & 1u8) << 6u8)) | ((x2 & 1u8) << 5u8)) | ((x3 & 1u8) << 4u8)) | ((x4 & 1u8) << 3u8)) | ((x5 & 1u8) << 2u8)) | ((x6 & 1u8) << 1u8)) | ((x7 & 1u8) << 0u8)),
    ensures
        (b >> 7u8) & 1u8 == x0 & 1u8,
        (b >> 6u8) & 1u8 == x1 & 1u8,
        (b >> 5u8) & 1u8 == x2 & 1u8,
        (b >> 4u8) & 1u8 == x3 & 1u8,
        (b >> 3u8) & 1u8 == x4 & 1u8,
        (b >> 2u8) & 1u8 == x5 & 1u8,
        (b >> 1u8) & 1u8 == x6 & 1u8,
        (b >> 0u8) & 1u8 == x7 & 1u8,
{
}

proof fn lemma_refill_1(b: u8)
    by (bit_vector)
    ensures
        b == ((((((((0u8 | ((((b >> 7u8) & 1u8) & 1u8) << 7u8)) | ((((b >> 6u8) & 1u8) & 1u8) << 6u8)) | ((((b >> 5u8) & 1u8) & 1u8) << 5u8)) | ((((b >> 4u8) & 1u8) & 1u8) << 4u8)) | ((((b >> 3u8) & 1u8) & 1u8) << 3u8)) | ((((b >> 2u8) & 1u8) & 1u8) << 2u8)) | ((((b >> 1u8) & 1u8) & 1u8) << 1u8)) | ((((b >> 0u8) & 1u8) & 1u8) << 0u8)),
{
}

proof fn lemma_fields_2(x0: u8, x1: u8, x2: u8, x3: u8, b: u8)
    by (bit_vector)
    requires
        b == ((((0u8 | ((x0 & 3u8) << 6u8)) | ((x1 & 3u8) << 4u8)) | ((x2 & 3u8) << 2u8)) | ((x3 & 3u8) << 0u8)),
    ensures
        (b >> 6u8) & 3u8 == x0 & 3u8,
        (b >> 4u8) & 3u8 == x1 & 3u8,
        (b >> 2u8) & 3u8 == x2 & 3u8,
        (b >> 0u8) & 3u8 == x3 & 3u8,
{
}

proof fn lemma_refill_2(b: u8)
    by (bit_vector)
    ensures
        b == ((((0u8 | ((((b >> 6u8) & 3u8) & 3u8) << 6u8)) | ((((b >> 4u8) & 3u8) & 3u8) << 4u8)) | ((((b >> 2u8) & 3u8) & 3u8) << 2u8)) | ((((b >> 0u8) & 3u8) & 3u8) << 0u8)),
{
}

proof fn lemma_fields_4(x0: u8, x1: u8, b: u8)
    by (bit_vector)
    requires
        b == ((0u8 | ((x0 & 15u8) << 4u8)) | ((x1 & 15u8) << 0u8)),
    ensures
        (b >> 4u8) & 15u8 == x0 & 15u8,
        (b >> 0u8) & 15u8 == x1 & 15u8,
{
}

proof fn lemma_refill_4(b: u8)
    by (bit_vector)
    ensures
        b == ((0u8 | ((((b >> 4u8) & 15u8) & 15u8) << 4u8)) | ((((b >> 0u8) & 15u8) & 15u8) << 0u8)),
{
}

proof fn lemma_mask_twice(y: u8, m: u8)
    by (bit_vector)
    ensures
        (y & m) & m == y & m,
{
}


/// A sample read back from a packed byte is the sample that was packed
/// there, masked to its depth; past the end of the line it is 0.
pub proof fn lemma_sample_pack(vals: Seq<u8>, start: int, n: int, i: int, d: u8, t: int)
    requires
        low_depth(d),
        0 <= t < per_byte(d),
    ensures
        sample(pack_bits(vals, start, n, i, d, per_byte(d)), d, t) == value_or_zero(vals, start, n, i * per_byte(d) + t)
            & sample_mask(d),
{
    reveal_with_fuel(pack_bits, 9);
    if d == 1 {
            let x0 = value_or_zero(vals, start, n, i * 8 + 0);
            let x1 = value_or_zero(vals, start, n, i * 8 + 1);
            let x2 = value_or_zero(vals, start, n, i * 8 + 2);
            let x3 = value_or_zero(vals, start, n, i * 8 + 3);
            let x4 = value_or_zero(vals, start, n, i * 8 + 4);
            let x5 = value_or_zero(vals, start, n, i * 8 + 5);
            let x6 = value_or_zero(vals, start, n, i * 8 + 6);
            let x7 = value_or_zero(vals, start, n, i * 8 + 7);
            lemma_fields_1(x0, x1, x2, x3, x4, x5, x6, x7, pack_bits(vals, start, n, i, d, 8));
            assert(sample_shift(d, 0) == 7u8);
            assert(sample_shift(d, 1) == 6u8);
            assert(sample_shift(d, 2) == 5u8);
            assert(sample_shift(d, 3) == 4u8);
            assert(sample_shift(d, 4) == 3u8);
            assert(sample_shift(d, 5) == 2u8);
            assert(sample_shift(d, 6) == 1u8);
            assert(sample_shift(d, 7) == 0u8);
    } else if d == 2 {
            let x0 = value_or_zero(vals, start, n, i * 4 + 0);
            let x1 = value_or_zero(vals, start, n, i * 4 + 1);
            let x2 = value_or_zero(vals, start, n, i * 4 + 2);
            let x3 = value_or_zero(vals, start, n, i * 4 + 3);
            lemma_fields_2(x0, x1, x2, x3, pack_bits(vals, start, n, i, d, 4));
            assert(sample_shift(d, 0) == 6u8);
            assert(sample_shift(d, 1) == 4u8);
            assert(sample_shift(d, 2) == 2u8);
            assert(sample_shift(d, 3) == 0u8);
    } else {
            let x0 = value_or_zero(vals, start, n, i * 2 + 0);
            let x1 = value_or_zero(vals, start, n, i * 2 + 1);
            lemma_fields_4(x0, x1, pack_bits(vals, start, n, i, d, 2));
            assert(sample_shift(d, 0) == 4u8);
            assert(sample_shift(d, 1) == 0u8);
    }
}


/// A byte packed from its own samples is the byte itself.
pub proof fn lemma_pack_own_samples(vals: Seq<u8>, start: int, n: int, i: int, d: u8, b: u8)
    requires
        low_depth(d),
        forall|t: int|
            #![trigger sample(b, d, t)]
            0 <= t < per_byte(d) ==> value_or_zero(vals, start, n, i * per_byte(d) + t) == sample(b, d, t),
    ensures
        pack_bits(vals, start, n, i, d, per_byte(d)) == b,
{
    reveal_with_fuel(pack_bits, 9);
    if d == 1 {
        lemma_refill_1(b);
        assert(sample_shift(d, 0) == 7u8);
        lemma_mask_twice(b >> 7u8, 1u8);
        assert(sample(b, d, 0) == value_or_zero(vals, start, n, i * per_byte(d) + 0));
        assert(sample_shift(d, 1) == 6u8);
        lemma_mask_twice(b >> 6u8, 1u8);
        assert(sample(b, d, 1) == value_or_zero(vals, start, n, i * per_byte(d) + 1));
        assert(sample_shift(d, 2) == 5u8);
        lemma_mask_twice(b >> 5u8, 1u8);
        assert(sample(b, d, 2) == value_or_zero(vals, start, n, i * per_byte(d) + 2));
        assert(sample_shift(d, 3) == 4u8);
        lemma_mask_twice(b >> 4u8, 1u8);
        assert(sample(b, d, 3) == value_or_zero(vals, start, n, i * per_byte(d) + 3));
        assert(sample_shift(d, 4) == 3u8);
        lemma_mask_twice(b >> 3u8, 1u8);
        assert(sample(b, d, 4) == value_or_zero(vals, start, n, i * per_byte(d) + 4));
        assert(sample_shift(d, 5) == 2u8);
        lemma_mask_twice(b >> 2u8, 1u8);
        assert(sample(b, d, 5) == value_or_zero(vals, start, n, i * per_byte(d) + 5));
        assert(sample_shift(d, 6) == 1u8);
        lemma_mask_twice(b >> 1u8, 1u8);
        assert(sample(b, d, 6) == value_or_zero(vals, start, n, i * per_byte(d) + 6));
        assert(sample_shift(d, 7) == 0u8);
        lemma_mask_twice(b >> 0u8, 1u8);
        assert(sample(b, d, 7) == value_or_zero(vals, start, n, i * per_byte(d) + 7));
    } else if d == 2 {
        lemma_refill_2(b);
        assert(sample_shift(d, 0) == 6u8);
        lemma_mask_twice(b >> 6u8, 3u8);
        assert(sample(b, d, 0) == value_or_zero(vals, start, n, i * per_byte(d) + 0));
        assert(sample_shift(d, 1) == 4u8);
        lemma_mask_twice(b >> 4u8, 3u8);
        assert(sample(b, d, 1) == value_or_zero(vals, start, n, i * per_byte(d) + 1));
        assert(sample_shift(d, 2) == 2u8);
        lemma_mask_twice(b >> 2u8, 3u8);
        assert(sample(b, d, 2) == value_or_zero(vals, start, n, i * per_byte(d) + 2));
        assert(sample_shift(d, 3) == 0u8);
        lemma_mask_twice(b >> 0u8, 3u8);
        assert(sample(b, d, 3) == value_or_zero(vals, start, n, i * per_byte(d) + 3));
    } else {
        lemma_refill_4(b);
        assert(sample_shift(d, 0) == 4u8);
        lemma_mask_twice(b >> 4u8, 15u8);
        assert(sample(b, d, 0) == value_or_zero(vals, start, n, i * per_byte(d) + 0));
        assert(sample_shift(d, 1) == 0u8);
        lemma_mask_twice(b >> 0u8, 15u8);
        assert(sample(b, d, 1) == value_or_zero(vals, start, n, i * per_byte(d) + 1));
    }
}

/// Whether every sample fits in `d` bits.
pub open spec fn masked_ok(v: Seq<u8>, d: u8) -> bool {
    forall|i: int| 0 <= i < v.len() ==> (#[trigger] v[i]) & sample_mask(d) == v[i]
}

/// Whether the bits past the last sample of each line are zero.
pub open spec fn padding_clear(data: Seq<u8>, widths: Seq<int>, d: u8) -> bool {
    forall|k: int, j: int|
        0 <= k < widths.len() && widths[k] <= j < line_bytes(widths[k], d as int) * per_byte(d) ==> #[trigger] sample(
            data[bytes_before(widths, d, k) + j / per_byte(d)],
            d,
            j % per_byte(d),
        ) == 0
}

/// Whether no line has a negative width.
pub open spec fn widths_ok(widths: Seq<int>) -> bool {
    forall|k: int| 0 <= k < widths.len() ==> #[trigger] widths[k] >= 0
}

proof fn lemma_packed_index(vals: Seq<u8>, ws: Seq<int>, d: u8, n: int)
    requires
        low_depth(d),
        widths_ok(ws),
        0 <= n <= ws.len(),
    ensures
        packed_upto(vals, ws, d, n).len() == bytes_before(ws, d, n),
        forall|k: int, i: int|
            0 <= k < n && 0 <= i < line_bytes(ws[k], d as int) ==> #[trigger] packed_upto(vals, ws, d, n)[bytes_before(
                ws,
                d,
                k,
            ) + i] == pack_bits(vals, pixels_before(ws, k), ws[k], i, d, per_byte(d)),
    decreases n,
{
    if n > 0 {
        lemma_packed_index(vals, ws, d, n - 1);
        lemma_before_mono(ws, d, n);
        let prev = packed_upto(vals, ws, d, n - 1);
        let line = pack_line(vals, pixels_before(ws, n - 1), ws[n - 1], d);
        assert(packed_upto(vals, ws, d, n) == prev + line);
        assert forall|k: int, i: int| 0 <= k < n && 0 <= i < line_bytes(ws[k], d as int) implies #[trigger] packed_upto(
            vals,
            ws,
            d,
            n,
        )[bytes_before(ws, d, k) + i] == pack_bits(vals, pixels_before(ws, k), ws[k], i, d, per_byte(d)) by {
            if k < n - 1 {
                lemma_before_mono(ws, d, n - 1);
                assert(bytes_before(ws, d, k + 1) <= bytes_before(ws, d, n - 1));
                assert(bytes_before(ws, d, k + 1) == bytes_before(ws, d, k) + line_bytes(ws[k], d as int));
                lemma_before_mono(ws, d, k);
                assert((prev + line)[bytes_before(ws, d, k) + i] == prev[bytes_before(ws, d, k) + i]);
            }
        }
    }
}

proof fn lemma_unpacked_index(data: Seq<u8>, ws: Seq<int>, d: u8, n: int)
    requires
        low_depth(d),
        widths_ok(ws),
        0 <= n <= ws.len(),
    ensures
        unpacked_upto(data, ws, d, n).len() == pixels_before(ws, n),
        forall|k: int, j: int|
            0 <= k < n && 0 <= j < ws[k] ==> #[trigger] unpacked_upto(data, ws, d, n)[pixels_before(ws, k) + j]
                == sample(data[bytes_before(ws, d, k) + j / per_byte(d)], d, j % per_byte(d)),
    decreases n,
{
    if n > 0 {
        lemma_unpacked_index(data, ws, d, n - 1);
        let prev = unpacked_upto(data, ws, d, n - 1);
        let line = line_samples(data, bytes_before(ws, d, n - 1), ws[n - 1], d);
        assert(unpacked_upto(data, ws, d, n) == prev + line);
        assert forall|k: int, j: int| 0 <= k < n && 0 <= j < ws[k] implies #[trigger] unpacked_upto(data, ws, d, n)[pixels_before(ws, k) + j]
            == sample(data[bytes_before(ws, d, k) + j / per_byte(d)], d, j % per_byte(d)) by {
            if k < n - 1 {
                lemma_before_mono(ws, d, n - 1);
                assert(pixels_before(ws, k + 1) <= pixels_before(ws, n - 1));
                assert(pixels_before(ws, k + 1) == pixels_before(ws, k) + ws[k]);
                lemma_before_mono(ws, d, k);
                assert((prev + line)[pixels_before(ws, k) + j] == prev[pixels_before(ws, k) + j]);
            }
        }
    }
}

proof fn lemma_div_mod(j: int, d: u8)
    requires
        low_depth(d),
        j >= 0,
    ensures
        (j / per_byte(d)) * per_byte(d) + j % per_byte(d) == j,
        forall|i: int, t: int| 0 <= t < per_byte(d) && i >= 0 ==> (#[trigger] (i * per_byte(d) + t)) / per_byte(d) == i
            && (i * per_byte(d) + t) % per_byte(d) == t,
{
    assert forall|i: int, t: int| 0 <= t < per_byte(d) && i >= 0 implies (#[trigger] (i * per_byte(d) + t)) / per_byte(d) == i
        && (i * per_byte(d) + t) % per_byte(d) == t by {
        if d == 1 {
        } else if d == 2 {
        } else {
        }
    }
}

proof fn lemma_unpack_packed_upto(vals: Seq<u8>, ws: Seq<int>, d: u8, n: int)
    requires
        low_depth(d),
        widths_ok(ws),
        0 <= n <= ws.len(),
        vals.len() == pixels_before(ws, ws.len() as int),
        masked_ok(vals, d),
    ensures
        unpacked_upto(packed(vals, ws, d), ws, d, n) == vals.take(pixels_before(ws, n)),
    decreases n,
{
    let pk = packed(vals, ws, d);
    lemma_before_mono(ws, d, ws.len() as int);
    if n > 0 {
        lemma_unpack_packed_upto(vals, ws, d, n - 1);
        lemma_packed_index(vals, ws, d, ws.len() as int);
        let ps = pixels_before(ws, n - 1);
        let bb = bytes_before(ws, d, n - 1);
        let w = ws[n - 1];
        let line = line_samples(pk, bb, w, d);
        lemma_before_mono(ws, d, n);
        lemma_before_mono(ws, d, n - 1);
        assert(pixels_before(ws, n) == ps + w);
        assert forall|j: int| 0 <= j < w implies #[trigger] line[j] == vals[ps + j] by {
            lemma_index_in_line(j, w, d);
            lemma_div_mod(j, d);
            let i = j / per_byte(d);
            let t = j % per_byte(d);
            assert(i * per_byte(d) + t == j);
            assert(line[j] == sample(pk[bb + i], d, t));
            assert(pk[bb + i] == pack_bits(vals, ps, w, i, d, per_byte(d)));
            lemma_sample_pack(vals, ps, w, i, d, t);
            assert(value_or_zero(vals, ps, w, i * per_byte(d) + t) == vals[ps + j]);
            assert(vals[ps + j] & sample_mask(d) == vals[ps + j]);
        }
        assert(line =~= vals.take(pixels_before(ws, n)).subrange(ps, ps + w));
        assert(vals.take(pixels_before(ws, n)) =~= vals.take(ps) + line);
    } else {
        assert(vals.take(0) =~= Seq::<u8>::empty());
    }
}

/// Reading back the samples of packed lines gives the samples that were
/// packed, when each fits in `d` bits.
pub proof fn lemma_unpack_packed(vals: Seq<u8>, widths: Seq<int>, d: u8)
    requires
        low_depth(d),
        widths_ok(widths),
        vals.len() == pixels_before(widths, widths.len() as int),
        masked_ok(vals, d),
    ensures
        unpacked(packed(vals, widths, d), widths, d) == vals,
{
    lemma_unpack_packed_upto(vals, widths, d, widths.len() as int);
    assert(vals.take(vals.len() as int) =~= vals);
}

proof fn lemma_pack_unpacked_upto(data: Seq<u8>, ws: Seq<int>, d: u8, n: int)
    requires
        low_depth(d),
        widths_ok(ws),
        0 <= n <= ws.len(),
        data.len() == bytes_before(ws, d, ws.len() as int),
        padding_clear(data, ws, d),
    ensures
        packed_upto(unpacked(data, ws, d), ws, d, n) == data.take(bytes_before(ws, d, n)),
    decreases n,
{
    let u = unpacked(data, ws, d);
    lemma_before_mono(ws, d, ws.len() as int);
    if n > 0 {
        lemma_pack_unpacked_upto(data, ws, d, n - 1);
        lemma_unpacked_index(data, ws, d, ws.len() as int);
        let ps = pixels_before(ws, n - 1);
        let bb = bytes_before(ws, d, n - 1);
        let w = ws[n - 1];
        let nb = line_bytes(w, d as int);
        let line = pack_line(u, ps, w, d);
        lemma_before_mono(ws, d, n);
        lemma_before_mono(ws, d, n - 1);
        assert(bytes_before(ws, d, n) == bb + nb);
        assert forall|i: int| 0 <= i < nb implies #[trigger] line[i] == data[bb + i] by {
            assert forall|t: int| 0 <= t < per_byte(d) implies #[trigger] value_or_zero(u, ps, w, i * per_byte(d) + t)
                == sample(data[bb + i], d, t) by {
                lemma_div_mod(i * per_byte(d) + t, d);
                let j = i * per_byte(d) + t;
                assert(j / per_byte(d) == i && j % per_byte(d) == t);
                if j < w {
                    assert(u[ps + j] == sample(data[bb + j / per_byte(d)], d, j % per_byte(d)));
                } else {
                    assert(j < nb * per_byte(d)) by (nonlinear_arith)
                        requires
                            j == i * per_byte(d) + t,
                            t < per_byte(d),
                            i < nb,
                            i >= 0,
                    ;
                    assert(sample(data[bytes_before(ws, d, n - 1) + j / per_byte(d)], d, j % per_byte(d)) == 0);
                }
            }
            lemma_pack_own_samples(u, ps, w, i, d, data[bb + i]);
        }
        assert(line =~= data.take(bb + nb).subrange(bb, bb + nb));
        assert(data.take(bb + nb) =~= data.take(bb) + line);
    } else {
        assert(data.take(0) =~= Seq::<u8>::empty());
    }
}

/// Packing the samples read out of packed lines gives the lines back, when
/// the bits past the last sample of each line are zero.
pub proof fn lemma_pack_unpacked(data: Seq<u8>, widths: Seq<int>, d: u8)
    requires
        low_depth(d),
        widths_ok(widths),
        data.len() == bytes_before(widths, d, widths.len() as int),
        padding_clear(data, widths, d),
    ensures
        packed(unpacked(data, widths, d), widths, d) == data,
{
    lemma_pack_unpacked_upto(data, widths, d, widths.len() as int);
    assert(data.take(data.len() as int) =~= data);
}

/// Every sample read out of packed lines fits in `d` bits.
pub proof fn lemma_unpacked_masked(data: Seq<u8>, widths: Seq<int>, d: u8, n: int)
    requires
        low_depth(d),
        0 <= n <= widths.len(),
    ensures
        masked_ok(unpacked_upto(data, widths, d, n), d),
    decreases n,
{
    if n > 0 {
        lemma_unpacked_masked(data, widths, d, n - 1);
        let prev = unpacked_upto(data, widths, d, n - 1);
        let line = line_samples(data, bytes_before(widths, d, n - 1), widths[n - 1], d);
        assert forall|i: int| 0 <= i < (prev + line).len() implies (#[trigger] (prev + line)[i]) & sample_mask(d)
            == (prev + line)[i] by {
            if i >= prev.len() {
                let j = i - prev.len();
                let byte = data[bytes_before(widths, d, n - 1) + j / per_byte(d)];
                lemma_mask_twice(byte >> sample_shift(d, j % per_byte(d)), sample_mask(d));
            } else {
                assert((prev + line)[i] == prev[i]);
            }
        }
        assert(unpacked_upto(data, widths, d, n) == prev + line);
    }
}

/// Packed lines have zero bits past their last sample.
pub proof fn lemma_packed_padding(vals: Seq<u8>, widths: Seq<int>, d: u8)
    requires
        low_depth(d),
        widths_ok(widths),
    ensures
        padding_clear(packed(vals, widths, d), widths, d),
{
    lemma_packed_index(vals, widths, d, widths.len() as int);
    assert forall|k: int, j: int|
        0 <= k < widths.len() && widths[k] <= j < line_bytes(widths[k], d as int) * per_byte(d) implies #[trigger] sample(
        packed(vals, widths, d)[bytes_before(widths, d, k) + j / per_byte(d)],
        d,
        j % per_byte(d),
    ) == 0 by {
        lemma_div_mod(j, d);
        let i = j / per_byte(d);
        assert(0 <= i < line_bytes(widths[k], d as int)) by {
            if d == 1 {
            } else if d == 2 {
            } else {
            }
        }
        lemma_sample_pack(vals, bytes_before(widths, d, k), widths[k], i, d, j % per_byte(d));
        assert(pixels_before(widths, k) == pixels_before(widths, k));
        lemma_sample_pack(vals, pixels_before(widths, k), widths[k], i, d, j % per_byte(d));
        lemma_zero_mask(sample_mask(d));
    }
}

proof fn lemma_zero_mask(m: u8)
    by (bit_vector)
    ensures
        0u8 & m == 0,
{
}


/// The samples of packed lines are as many as the lines' pixels.
pub proof fn lemma_unpacked_len(data: Seq<u8>, widths: Seq<int>, d: u8)
    requires
        low_depth(d),
        widths_ok(widths),
    ensures
        unpacked(data, widths, d).len() == pixels_before(widths, widths.len() as int),
{
    lemma_unpacked_index(data, widths, d, widths.len() as int);
}

} // verus!
