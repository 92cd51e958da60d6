use vstd::prelude::*;

use crate::bit_depth::{
    bytes_before, lemma_bytes_before_layout, lemma_layout_depths, lemma_line_widths_total, lemma_pack_unpacked,
    lemma_packed_padding, lemma_unpack_packed, lemma_unpacked_masked, line_widths, line_widths_exec, low_depth,
    masked_ok, pack_samples, packed, padding_clear, pixels_before, unpack_samples, unpacked, widths_ok,
};
use crate::colors::{BitDepth, ColorType, same_color_type};
use crate::headers::{
    IhdrData, LineShape, adam7, interlaced_constants, layout_for, layout_size, lemma_layout_size_append, line_bytes, pass_extent,
    pass_extent_exec, pass_lines, passes_upto,
};
use crate::png::PngImage;

verus! {

/// The width in pixels of Adam7 pass `p` of an image `w` pixels wide.
pub open spec fn pass_w(w: int, p: int) -> int {
    pass_extent(adam7(p).0, adam7(p).2, w)
}

/// The height in rows of Adam7 pass `p` of an image `h` rows high.
pub open spec fn pass_h(h: int, p: int) -> int {
    pass_extent(adam7(p).1, adam7(p).3, h)
}

/// The Adam7 pass that holds pixel `(x, y)`.
pub open spec fn pass_of(x: int, y: int) -> int {
    let xm = x % 8;
    let ym = y % 8;
    if ym == 0 && xm == 0 {
        1
    } else if ym == 0 && xm == 4 {
        2
    } else if ym == 4 && (xm == 0 || xm == 4) {
        3
    } else if (ym == 0 || ym == 4) && (xm == 2 || xm == 6) {
        4
    } else if (ym == 2 || ym == 6) && x % 2 == 0 {
        5
    } else if y % 2 == 0 {
        6
    } else {
        7
    }
}

proof fn lemma_mods(v: int)
    requires
        v >= 0,
    ensures
        v % 4 == (v % 8) % 4,
        v % 2 == (v % 8) % 2,
        v % 1 == 0,
        0 <= v % 8 < 8,
{
}

/// Along one axis: position `v` is step `(v - s) / d` of the steps
/// `s, s + d, ...` below `size`, when `v % d == s`.
proof fn lemma_axis(v: int, size: int, s: int, d: int)
    requires
        d == 1 || d == 2 || d == 4 || d == 8,
        0 <= s < d,
        0 <= v < size,
        v % d == s,
    ensures
        v >= s,
        (v - s) % d == 0,
        0 <= (v - s) / d < pass_extent(s, d, size),
        s + ((v - s) / d) * d == v,
{
    if d == 1 {
        assert(((v - s) / d) * d == (v - s) / d);
    } else if d == 2 {
        assert(((v - s) / d) * d == 2 * ((v - s) / 2));
    } else if d == 4 {
        assert(((v - s) / d) * d == 4 * ((v - s) / 4));
    } else {
        assert(((v - s) / d) * d == 8 * ((v - s) / 8));
    }
}

/// Along one axis: step `i` of the steps `s, s + d, ...` below `size` is a
/// position below `size` with remainder `s`.
proof fn lemma_axis_step(i: int, size: int, s: int, d: int)
    requires
        d == 1 || d == 2 || d == 4 || d == 8,
        0 <= s < d,
        0 <= i < pass_extent(s, d, size),
    ensures
        0 <= s + i * d < size,
        (s + i * d) % d == s,
        ((s + i * d) - s) / d == i,
{
    assert(size > s);
    let n = size - s + d - 1;
    let e = n / d;
    assert(e == pass_extent(s, d, size));
    assert(i + 1 <= e);
    assert((i + 1) * d <= e * d) by (nonlinear_arith)
        requires
            i + 1 <= e,
            d > 0,
    ;
    assert(e * d <= n) by (nonlinear_arith)
        requires
            e == n / d,
            d > 0,
            n >= 0,
    ;
    assert((i + 1) * d == i * d + d) by (nonlinear_arith);
    assert((s + i * d) % d == s && ((s + i * d) - s) / d == i) by (nonlinear_arith)
        requires
            0 <= s < d,
            i >= 0,
    ;
}

/// Pixel `(x, y)` is column `(x - xs) / dx`, row `(y - ys) / dy` of its pass.
pub proof fn lemma_pass_of(x: int, y: int, w: int, h: int)
    requires
        0 <= x < w,
        0 <= y < h,
    ensures
        1 <= pass_of(x, y) <= 7,
        ({
            let (xs, ys, dx, dy) = adam7(pass_of(x, y));
            &&& x >= xs && (x - xs) % dx == 0
            &&& y >= ys && (y - ys) % dy == 0
            &&& 0 <= (x - xs) / dx < pass_w(w, pass_of(x, y))
            &&& 0 <= (y - ys) / dy < pass_h(h, pass_of(x, y))
            &&& xs + ((x - xs) / dx) * dx == x
            &&& ys + ((y - ys) / dy) * dy == y
        }),
{
    let p = pass_of(x, y);
    lemma_mods(x);
    lemma_mods(y);
    let (xs, ys, dx, dy) = adam7(p);
    assert(x % dx == xs && y % dy == ys);
    lemma_axis(x, w, xs, dx);
    lemma_axis(y, h, ys, dy);
}

/// The pixel at column `i`, row `r` of pass `p` lies in that pass.
pub proof fn lemma_in_pass(p: int, r: int, i: int, w: int, h: int)
    requires
        1 <= p <= 7,
        0 <= i < pass_w(w, p),
        0 <= r < pass_h(h, p),
    ensures
        ({
            let (xs, ys, dx, dy) = adam7(p);
            let x = xs + i * dx;
            let y = ys + r * dy;
            &&& 0 <= x < w
            &&& 0 <= y < h
            &&& pass_of(x, y) == p
            &&& (x - xs) / dx == i
            &&& (y - ys) / dy == r
        }),
{
    let (xs, ys, dx, dy) = adam7(p);
    lemma_axis_step(i, w, xs, dx);
    lemma_axis_step(r, h, ys, dy);
    let x = xs + i * dx;
    let y = ys + r * dy;
    lemma_mods(x);
    lemma_mods(y);
}

/// The pixels of the Adam7 passes before pass `p`.
pub open spec fn pass_start(w: int, h: int, p: int) -> int
    decreases p,
{
    if p <= 1 {
        0
    } else {
        pass_start(w, h, p - 1) + pass_w(w, p - 1) * pass_h(h, p - 1)
    }
}

/// The `b` bytes of pixel `(x, y)` of image data without interlacing.
pub open spec fn pixel_at(raw: Seq<u8>, w: int, b: int, x: int, y: int) -> Seq<u8> {
    raw.subrange((y * w + x) * b, (y * w + x) * b + b)
}

/// The first `i` pixels of row `r` of pass `p`, taken from image data without
/// interlacing.
pub open spec fn pass_row(raw: Seq<u8>, w: int, b: int, p: int, r: int, i: int) -> Seq<u8>
    decreases i,
{
    if i <= 0 {
        Seq::empty()
    } else {
        let (xs, ys, dx, dy) = adam7(p);
        pass_row(raw, w, b, p, r, i - 1) + pixel_at(raw, w, b, xs + (i - 1) * dx, ys + r * dy)
    }
}

/// The first `r` rows of pass `p`.
pub open spec fn pass_rows(raw: Seq<u8>, w: int, h: int, b: int, p: int, r: int) -> Seq<u8>
    decreases r,
{
    if r <= 0 {
        Seq::empty()
    } else {
        pass_rows(raw, w, h, b, p, r - 1) + pass_row(raw, w, b, p, r - 1, pass_w(w, p))
    }
}

/// The passes `1..=p`, one after the other.
pub open spec fn passes(raw: Seq<u8>, w: int, h: int, b: int, p: int) -> Seq<u8>
    decreases p,
{
    if p <= 0 {
        Seq::empty()
    } else {
        passes(raw, w, h, b, p - 1) + pass_rows(raw, w, h, b, p, pass_h(h, p))
    }
}

/// Image data without interlacing (`b` bytes per pixel), Adam7-interlaced:
/// the seven passes, each row by row, each row pixel by pixel.
pub open spec fn interlaced_data(raw: Seq<u8>, w: int, h: int, b: int) -> Seq<u8> {
    passes(raw, w, h, b, 7)
}

/// A copy of the bytes `raw[start..start + len]` appended to `out`.
fn push_bytes(out: &mut Vec<u8>, raw: &Vec<u8>, start: usize, len: usize)
    requires
        start + len <= raw@.len(),
    ensures
        final(out)@ == old(out)@ + raw@.subrange(start as int, start + len),
{
    let ghost o0 = out@;
    let total = raw.len();
    let mut c: usize = 0;
    while c < len
        invariant
            start + len <= raw@.len(),
            total == raw@.len(),
            c <= len,
            out@ == o0 + raw@.subrange(start as int, start + c),
        decreases len - c,
    {
        out.push(raw[start + c]);
        c += 1;
        assert(out@ =~= o0 + raw@.subrange(start as int, start + c));
    }
}

proof fn lemma_pixel_index(x: int, y: int, w: int, h: int, b: int)
    requires
        0 <= x < w,
        0 <= y < h,
        1 <= b,
    ensures
        0 <= (y * w + x) * b,
        (y * w + x) * b + b <= w * h * b,
        0 <= y * w <= y * w + x <= (y * w + x) * b,
{
    assert(0 <= y * w) by (nonlinear_arith)
        requires
            0 <= y,
            0 <= w,
    ;
    assert(y * w + x <= (y * w + x) * b) by (nonlinear_arith)
        requires
            0 <= y * w + x,
            1 <= b,
    ;
    assert(y * w + x < w * h) by (nonlinear_arith)
        requires
            0 <= x < w,
            0 <= y < h,
    ;
    assert((y * w + x) * b + b <= w * h * b) by (nonlinear_arith)
        requires
            0 <= y * w + x < w * h,
            1 <= b,
    ;
    assert(0 <= (y * w + x) * b) by (nonlinear_arith)
        requires
            0 <= y * w + x,
            1 <= b,
    ;
}

/// Interlace by bytes, for images with at least 8 bits per pixel: pass by
/// pass, row by row, the pixels of each pass are copied from the image.
fn interlace_bytes(raw: &Vec<u8>, w: u32, h: u32, b: usize) -> (r: Vec<u8>)
    requires
        1 <= b <= 8,
        raw@.len() == w * h * b,
        w * h * b <= usize::MAX,
    ensures
        r@ == interlaced_data(raw@, w as int, h as int, b as int),
{
    let wu = w as usize;
    let mut out: Vec<u8> = Vec::new();
    let mut p: u8 = 1;
    while p <= 7
        invariant
            1 <= b <= 8,
            raw@.len() == w * h * b,
            w * h * b <= usize::MAX,
            wu == w,
            1 <= p <= 8,
            out@ == passes(raw@, w as int, h as int, b as int, p - 1),
        decreases 8 - p,
    {
        let (xs, ys, dx, dy) = interlaced_constants(p);
        let pw = pass_extent_exec(xs, dx, w);
        let ph = pass_extent_exec(ys, dy, h);
        let ghost before = out@;
        let mut r: u32 = 0;
        while r < ph
            invariant
                1 <= b <= 8,
                raw@.len() == w * h * b,
                w * h * b <= usize::MAX,
                wu == w,
                1 <= p <= 7,
                (xs as int, ys as int, dx as int, dy as int) == adam7(p as int),
                pw == pass_w(w as int, p as int),
                ph == pass_h(h as int, p as int),
                r <= ph,
                out@ == before + pass_rows(raw@, w as int, h as int, b as int, p as int, r as int),
            decreases ph - r,
        {
            let ghost row_start = out@;
            let mut i: u32 = 0;
            while i < pw
                invariant
                    1 <= b <= 8,
                    raw@.len() == w * h * b,
                    w * h * b <= usize::MAX,
                    wu == w,
                    1 <= p <= 7,
                    (xs as int, ys as int, dx as int, dy as int) == adam7(p as int),
                    pw == pass_w(w as int, p as int),
                    ph == pass_h(h as int, p as int),
                    r < ph,
                    i <= pw,
                    out@ == row_start + pass_row(raw@, w as int, b as int, p as int, r as int, i as int),
                decreases pw - i,
            {
                proof {
                    lemma_in_pass(p as int, r as int, i as int, w as int, h as int);
                }
                let x = (xs + i * dx) as usize;
                let y = (ys + r * dy) as usize;
                proof {
                    lemma_pixel_index(x as int, y as int, w as int, h as int, b as int);
                }
                let start = (y * wu + x) * b;
                push_bytes(&mut out, raw, start, b);
                i += 1;
                assert(out@ =~= row_start + pass_row(raw@, w as int, b as int, p as int, r as int, i as int));
            }
            r += 1;
            assert(out@ =~= before + pass_rows(raw@, w as int, h as int, b as int, p as int, r as int));
        }
        p += 1;
        assert(out@ =~= passes(raw@, w as int, h as int, b as int, p - 1));
    }
    out
}

proof fn lemma_extent_half(n: int, s: int)
    requires
        n >= 0,
        s == 1 || s == 2 || s == 4,
    ensures
        pass_extent(0, 2 * s, n) + pass_extent(s, 2 * s, n) == pass_extent(0, s, n),
{
    let q = n / (2 * s);
    let r = n % (2 * s);
    assert(n == 2 * s * q + r && 0 <= r < 2 * s) by (nonlinear_arith)
        requires
            q == n / (2 * s),
            r == n % (2 * s),
            s >= 1,
            n >= 0,
    ;
    if n > 0 {
        assert(pass_extent(0, 2 * s, n) == (n + 2 * s - 1) / (2 * s));
        assert(pass_extent(0, s, n) == (n + s - 1) / s);
        if r == 0 {
            assert((n + 2 * s - 1) / (2 * s) == q) by (nonlinear_arith)
                requires
                    n == 2 * s * q,
                    s >= 1,
            ;
            assert((n + s - 1) / s == 2 * q) by (nonlinear_arith)
                requires
                    n == 2 * s * q,
                    s >= 1,
            ;
            if n > s {
                assert((n - s + 2 * s - 1) / (2 * s) == q) by (nonlinear_arith)
                    requires
                        n == 2 * s * q,
                        s >= 1,
                ;
            }
        } else if r <= s {
            assert((n + 2 * s - 1) / (2 * s) == q + 1) by (nonlinear_arith)
                requires
                    n == 2 * s * q + r,
                    0 < r <= s,
                    s >= 1,
            ;
            assert((n + s - 1) / s == 2 * q + 1) by (nonlinear_arith)
                requires
                    n == 2 * s * q + r,
                    0 < r <= s,
                    s >= 1,
            ;
            if n > s {
                assert((n - s + 2 * s - 1) / (2 * s) == q) by (nonlinear_arith)
                    requires
                        n == 2 * s * q + r,
                        0 < r <= s,
                        s >= 1,
                ;
            } else {
                assert(q == 0) by (nonlinear_arith)
                    requires
                        n == 2 * s * q + r,
                        0 < r,
                        n <= s,
                        q >= 0,
                        s >= 1,
                ;
            }
        } else {
            assert((n + 2 * s - 1) / (2 * s) == q + 1) by (nonlinear_arith)
                requires
                    n == 2 * s * q + r,
                    s < r < 2 * s,
                    s >= 1,
            ;
            assert((n + s - 1) / s == 2 * q + 2) by (nonlinear_arith)
                requires
                    n == 2 * s * q + r,
                    s < r < 2 * s,
                    s >= 1,
            ;
            assert((n - s + 2 * s - 1) / (2 * s) == q + 1) by (nonlinear_arith)
                requires
                    n == 2 * s * q + r,
                    s < r < 2 * s,
                    s >= 1,
            ;
        }
    }
}

proof fn lemma_extent_halves(n: int)
    requires
        n >= 0,
    ensures
        pass_extent(0, 8, n) + pass_extent(4, 8, n) == pass_extent(0, 4, n),
        pass_extent(0, 4, n) + pass_extent(2, 4, n) == pass_extent(0, 2, n),
        pass_extent(0, 2, n) + pass_extent(1, 2, n) == pass_extent(0, 1, n),
        pass_extent(0, 1, n) == n,
{
    lemma_extent_half(n, 4);
    lemma_extent_half(n, 2);
    lemma_extent_half(n, 1);
}

/// The seven passes together hold every pixel once: `w * h` of them.
pub proof fn lemma_pass_total(w: int, h: int)
    requires
        w >= 0,
        h >= 0,
    ensures
        pass_start(w, h, 8) == w * h,
{
    lemma_extent_halves(w);
    lemma_extent_halves(h);
    let w8 = pass_extent(0, 8, w);
    let w48 = pass_extent(4, 8, w);
    let w4 = pass_extent(0, 4, w);
    let w24 = pass_extent(2, 4, w);
    let w2 = pass_extent(0, 2, w);
    let w12 = pass_extent(1, 2, w);
    let h8 = pass_extent(0, 8, h);
    let h48 = pass_extent(4, 8, h);
    let h4 = pass_extent(0, 4, h);
    let h24 = pass_extent(2, 4, h);
    let h2 = pass_extent(0, 2, h);
    let h12 = pass_extent(1, 2, h);
    reveal_with_fuel(pass_start, 8);
    assert(pass_start(w, h, 8) == w8 * h8 + w48 * h8 + w4 * h48 + w24 * h4 + w2 * h24 + w12 * h2 + w * h12);
    assert(w8 * h8 + w48 * h8 == w4 * h8) by (nonlinear_arith)
        requires
            w8 + w48 == w4,
    ;
    assert(w4 * h8 + w4 * h48 == w4 * h4) by (nonlinear_arith)
        requires
            h8 + h48 == h4,
    ;
    assert(w4 * h4 + w24 * h4 == w2 * h4) by (nonlinear_arith)
        requires
            w4 + w24 == w2,
    ;
    assert(w2 * h4 + w2 * h24 == w2 * h2) by (nonlinear_arith)
        requires
            h4 + h24 == h2,
    ;
    assert(w2 * h2 + w12 * h2 == w * h2) by (nonlinear_arith)
        requires
            w2 + w12 == w,
    ;
    assert(w * h2 + w * h12 == w * h) by (nonlinear_arith)
        requires
            h2 + h12 == h,
    ;
}

proof fn lemma_pass_start_mono(w: int, h: int, p: int, q: int)
    requires
        w >= 0,
        h >= 0,
        1 <= p <= q,
    ensures
        pass_start(w, h, p) <= pass_start(w, h, q),
        p < q ==> pass_start(w, h, p) + pass_w(w, p) * pass_h(h, p) <= pass_start(w, h, q),
    decreases q - p,
{
    if p < q {
        lemma_pass_start_mono(w, h, p, q - 1);
        assert(pass_w(w, q - 1) * pass_h(h, q - 1) >= 0) by (nonlinear_arith)
            requires
                pass_w(w, q - 1) >= 0,
                pass_h(h, q - 1) >= 0,
        ;
    }
}

/// The position among the interlaced pixels from which pixel `(x, y)` comes.
pub open spec fn source_pixel(w: int, h: int, x: int, y: int) -> int {
    let p = pass_of(x, y);
    let (xs, ys, dx, dy) = adam7(p);
    pass_start(w, h, p) + ((y - ys) / dy) * pass_w(w, p) + (x - xs) / dx
}

/// The first `x` pixels of row `y` of the image, taken from interlaced data.
pub open spec fn deinterlaced_row(d: Seq<u8>, w: int, h: int, b: int, y: int, x: int) -> Seq<u8>
    decreases x,
{
    if x <= 0 {
        Seq::empty()
    } else {
        let src = source_pixel(w, h, x - 1, y);
        deinterlaced_row(d, w, h, b, y, x - 1) + d.subrange(src * b, src * b + b)
    }
}

/// The first `y` rows of the image, taken from interlaced data.
pub open spec fn deinterlaced_rows(d: Seq<u8>, w: int, h: int, b: int, y: int) -> Seq<u8>
    decreases y,
{
    if y <= 0 {
        Seq::empty()
    } else {
        deinterlaced_rows(d, w, h, b, y - 1) + deinterlaced_row(d, w, h, b, y - 1, w)
    }
}

/// Adam7-interlaced data (`b` bytes per pixel) without interlacing: row by
/// row, each pixel taken from its place in its pass.
pub open spec fn deinterlaced_data(d: Seq<u8>, w: int, h: int, b: int) -> Seq<u8> {
    deinterlaced_rows(d, w, h, b, h)
}

/// The pass of pixel `(x, y)`.
fn pass_of_exec(x: u32, y: u32) -> (p: u8)
    ensures
        p == pass_of(x as int, y as int),
{
    let xm = x % 8;
    let ym = y % 8;
    if ym == 0 && xm == 0 {
        1
    } else if ym == 0 && xm == 4 {
        2
    } else if ym == 4 && (xm == 0 || xm == 4) {
        3
    } else if (ym == 0 || ym == 4) && (xm == 2 || xm == 6) {
        4
    } else if (ym == 2 || ym == 6) && x % 2 == 0 {
        5
    } else if y % 2 == 0 {
        6
    } else {
        7
    }
}

/// The source position of pixel `(x, y)` lies among the interlaced pixels.
proof fn lemma_source_range(w: int, h: int, x: int, y: int)
    requires
        0 <= x < w,
        0 <= y < h,
    ensures
        0 <= source_pixel(w, h, x, y) < w * h,
{
    lemma_pass_of(x, y, w, h);
    let p = pass_of(x, y);
    let (xs, ys, dx, dy) = adam7(p);
    let r = (y - ys) / dy;
    let i = (x - xs) / dx;
    let pw = pass_w(w, p);
    let ph = pass_h(h, p);
    assert(r * pw + i < pw * ph) by (nonlinear_arith)
        requires
            0 <= r < ph,
            0 <= i < pw,
    ;
    assert(0 <= r * pw) by (nonlinear_arith)
        requires
            0 <= r,
            0 <= pw,
    ;
    lemma_pass_start_mono(w, h, p, 8);
    lemma_pass_total(w, h);
    lemma_pass_start_mono(w, h, 1, p);
}

/// Deinterlace by bytes, for images with at least 8 bits per pixel: row by
/// row, each pixel is copied from its place in its pass.
fn deinterlace_bytes(d: &Vec<u8>, w: u32, h: u32, b: usize) -> (r: Vec<u8>)
    requires
        1 <= b <= 8,
        d@.len() == w * h * b,
        w * h * b <= usize::MAX,
    ensures
        r@ == deinterlaced_data(d@, w as int, h as int, b as int),
{
    // The pixels before each pass
    let mut starts: Vec<usize> = Vec::new();
    starts.push(0);
    let mut acc: usize = 0;
    let mut p: u8 = 1;
    proof {
        lemma_pass_total(w as int, h as int);
        assert(w * h <= w * h * b) by (nonlinear_arith)
            requires
                1 <= b,
        ;
    }
    while p <= 7
        invariant
            1 <= p <= 8,
            w * h <= usize::MAX,
            pass_start(w as int, h as int, 8) == w * h,
            starts@.len() == p,
            acc == pass_start(w as int, h as int, p as int),
            forall|q: int| 1 <= q <= p ==> #[trigger] starts@[q - 1] == pass_start(w as int, h as int, q),
        decreases 8 - p,
    {
        let (xs, ys, dx, dy) = interlaced_constants(p);
        let pw = pass_extent_exec(xs, dx, w);
        let ph = pass_extent_exec(ys, dy, h);
        proof {
            lemma_pass_start_mono(w as int, h as int, p as int, 8);
        }
        acc = acc + pw as usize * ph as usize;
        starts.push(acc);
        p += 1;
    }
    let wu = w as usize;
    let mut out: Vec<u8> = Vec::new();
    let mut y: u32 = 0;
    while y < h
        invariant
            1 <= b <= 8,
            d@.len() == w * h * b,
            w * h * b <= usize::MAX,
            wu == w,
            starts@.len() == 8,
            forall|q: int| 1 <= q <= 8 ==> #[trigger] starts@[q - 1] == pass_start(w as int, h as int, q),
            y <= h,
            out@ == deinterlaced_rows(d@, w as int, h as int, b as int, y as int),
        decreases h - y,
    {
        let ghost row_start = out@;
        let mut x: u32 = 0;
        while x < w
            invariant
                1 <= b <= 8,
                d@.len() == w * h * b,
                w * h * b <= usize::MAX,
                wu == w,
                starts@.len() == 8,
                forall|q: int| 1 <= q <= 8 ==> #[trigger] starts@[q - 1] == pass_start(w as int, h as int, q),
                y < h,
                x <= w,
                out@ == row_start + deinterlaced_row(d@, w as int, h as int, b as int, y as int, x as int),
            decreases w - x,
        {
            proof {
                lemma_pass_of(x as int, y as int, w as int, h as int);
                lemma_source_range(w as int, h as int, x as int, y as int);
                lemma_pixel_index(0, source_pixel(w as int, h as int, x as int, y as int), 1, w * h, b as int);
            }
            let p = pass_of_exec(x, y);
            let (xs, ys, dx, dy) = interlaced_constants(p);
            let pw = pass_extent_exec(xs, dx, w);
            let r = ((y - ys) / dy) as usize;
            let i = ((x - xs) / dx) as usize;
            proof {
                assert(r * pw <= source_pixel(w as int, h as int, x as int, y as int)) by {
                    lemma_pass_start_mono(w as int, h as int, 1, p as int);
                }
            }
            let src = starts[(p - 1) as usize] + r * pw as usize + i;
            push_bytes(&mut out, d, src * b, b);
            x += 1;
            assert(out@ =~= row_start + deinterlaced_row(d@, w as int, h as int, b as int, y as int, x as int));
        }
        y += 1;
        assert(out@ =~= deinterlaced_rows(d@, w as int, h as int, b as int, y as int));
    }
    out
}

proof fn lemma_mul_step(a: int, b: int)
    ensures
        (a + 1) * b == a * b + b,
        a * b + b == (a + 1) * b,
{
    assert((a + 1) * b == a * b + b) by (nonlinear_arith);
}

proof fn lemma_pass_row_facts(raw: Seq<u8>, w: int, h: int, b: int, p: int, r: int, i: int)
    requires
        1 <= p <= 7,
        1 <= b,
        raw.len() == w * h * b,
        0 <= r < pass_h(h, p),
        0 <= i <= pass_w(w, p),
    ensures
        pass_row(raw, w, b, p, r, i).len() == i * b,
        forall|k: int, c: int|
            0 <= k < i && 0 <= c < b ==> #[trigger] pass_row(raw, w, b, p, r, i)[k * b + c] == raw[(((adam7(p).1 + r
                * adam7(p).3) * w + adam7(p).0 + k * adam7(p).2)) * b + c],
    decreases i,
{
    if i > 0 {
        lemma_pass_row_facts(raw, w, h, b, p, r, i - 1);
        let (xs, ys, dx, dy) = adam7(p);
        lemma_in_pass(p, r, i - 1, w, h);
        let x = xs + (i - 1) * dx;
        let y = ys + r * dy;
        lemma_pixel_index(x, y, w, h, b);
        lemma_mul_step(i - 1, b);
        let prev = pass_row(raw, w, b, p, r, i - 1);
        let px = pixel_at(raw, w, b, x, y);
        assert forall|k: int, c: int| 0 <= k < i && 0 <= c < b implies #[trigger] pass_row(raw, w, b, p, r, i)[k * b
            + c] == raw[(((ys + r * dy) * w + xs + k * dx)) * b + c] by {
            if k < i - 1 {
                assert(k * b + c < (i - 1) * b) by (nonlinear_arith)
                    requires
                        0 <= k < i - 1,
                        0 <= c < b,
                ;
                assert(0 <= k * b) by (nonlinear_arith)
                    requires
                        0 <= k,
                        0 <= b,
                ;
                assert(pass_row(raw, w, b, p, r, i)[k * b + c] == prev[k * b + c]);
            } else {
                assert(pass_row(raw, w, b, p, r, i)[k * b + c] == px[c]);
            }
        }
    }
}

proof fn lemma_pass_rows_facts(raw: Seq<u8>, w: int, h: int, b: int, p: int, r: int)
    requires
        1 <= p <= 7,
        1 <= b,
        raw.len() == w * h * b,
        0 <= r <= pass_h(h, p),
    ensures
        pass_rows(raw, w, h, b, p, r).len() == r * pass_w(w, p) * b,
        forall|q: int, k: int, c: int|
            0 <= q < r && 0 <= k < pass_w(w, p) && 0 <= c < b ==> #[trigger] pass_rows(raw, w, h, b, p, r)[(q
                * pass_w(w, p) + k) * b + c] == raw[(((adam7(p).1 + q * adam7(p).3) * w + adam7(p).0 + k * adam7(
                p,
            ).2)) * b + c],
    decreases r,
{
    if r > 0 {
        let pw = pass_w(w, p);
        lemma_pass_rows_facts(raw, w, h, b, p, r - 1);
        lemma_pass_row_facts(raw, w, h, b, p, r - 1, pw);
        let prev = pass_rows(raw, w, h, b, p, r - 1);
        let row = pass_row(raw, w, b, p, r - 1, pw);
        assert(r * pw * b == (r - 1) * pw * b + pw * b) by (nonlinear_arith);
        assert forall|q: int, k: int, c: int| 0 <= q < r && 0 <= k < pw && 0 <= c < b implies #[trigger] pass_rows(
            raw,
            w,
            h,
            b,
            p,
            r,
        )[(q * pw + k) * b + c] == raw[(((adam7(p).1 + q * adam7(p).3) * w + adam7(p).0 + k * adam7(p).2)) * b
            + c] by {
            if q < r - 1 {
                assert(0 <= (q * pw + k) * b + c < (r - 1) * pw * b) by (nonlinear_arith)
                    requires
                        0 <= q < r - 1,
                        0 <= k < pw,
                        0 <= c < b,
                ;
                assert(pass_rows(raw, w, h, b, p, r)[(q * pw + k) * b + c] == prev[(q * pw + k) * b + c]);
            } else {
                assert((q * pw + k) * b + c == (r - 1) * pw * b + (k * b + c)) by (nonlinear_arith)
                    requires
                        q == r - 1,
                ;
                assert(0 <= k * b + c < pw * b) by (nonlinear_arith)
                    requires
                        0 <= k < pw,
                        0 <= c < b,
                ;
                assert(pass_rows(raw, w, h, b, p, r)[(q * pw + k) * b + c] == row[k * b + c]);
            }
        }
    } else {
        assert(r * pass_w(w, p) * b == 0) by (nonlinear_arith)
            requires
                r == 0,
        ;
    }
}

proof fn lemma_passes_facts(raw: Seq<u8>, w: int, h: int, b: int, p: int)
    requires
        0 <= p <= 7,
        1 <= b,
        w >= 0,
        h >= 0,
        raw.len() == w * h * b,
    ensures
        passes(raw, w, h, b, p).len() == pass_start(w, h, p + 1) * b,
        forall|q: int, r: int, k: int, c: int|
            1 <= q <= p && 0 <= r < pass_h(h, q) && 0 <= k < pass_w(w, q) && 0 <= c < b ==> #[trigger] passes(
                raw,
                w,
                h,
                b,
                p,
            )[(pass_start(w, h, q) + r * pass_w(w, q) + k) * b + c] == raw[(((adam7(q).1 + r * adam7(q).3) * w
                + adam7(q).0 + k * adam7(q).2)) * b + c],
    decreases p,
{
    if p > 0 {
        lemma_passes_facts(raw, w, h, b, p - 1);
        let ph = pass_h(h, p);
        let pw = pass_w(w, p);
        lemma_pass_rows_facts(raw, w, h, b, p, ph);
        let prev = passes(raw, w, h, b, p - 1);
        let rows = pass_rows(raw, w, h, b, p, ph);
        assert(pass_start(w, h, p + 1) * b == pass_start(w, h, p) * b + ph * pw * b) by (nonlinear_arith)
            requires
                pass_start(w, h, p + 1) == pass_start(w, h, p) + pw * ph,
        ;
        assert forall|q: int, r: int, k: int, c: int|
            1 <= q <= p && 0 <= r < pass_h(h, q) && 0 <= k < pass_w(w, q) && 0 <= c < b implies #[trigger] passes(
            raw,
            w,
            h,
            b,
            p,
        )[(pass_start(w, h, q) + r * pass_w(w, q) + k) * b + c] == raw[(((adam7(q).1 + r * adam7(q).3) * w
            + adam7(q).0 + k * adam7(q).2)) * b + c] by {
            let qw = pass_w(w, q);
            let qh = pass_h(h, q);
            assert(0 <= r * qw + k < qw * qh) by (nonlinear_arith)
                requires
                    0 <= r < qh,
                    0 <= k < qw,
            ;
            if q < p {
                lemma_pass_start_mono(w, h, q, p);
                lemma_pass_start_mono(w, h, 1, q);
                assert(0 <= (pass_start(w, h, q) + r * qw + k) * b + c < pass_start(w, h, p) * b) by (nonlinear_arith)
                    requires
                        pass_start(w, h, q) + qw * qh <= pass_start(w, h, p),
                        0 <= pass_start(w, h, q),
                        0 <= r * qw + k < qw * qh,
                        0 <= c < b,
                ;
                lemma_pass_start_mono(w, h, 1, q);
                assert(passes(raw, w, h, b, p)[(pass_start(w, h, q) + r * qw + k) * b + c] == prev[(pass_start(
                    w,
                    h,
                    q,
                ) + r * qw + k) * b + c]);
            } else {
                lemma_pass_start_mono(w, h, 1, p);
                assert((pass_start(w, h, q) + r * qw + k) * b + c == pass_start(w, h, p) * b + ((r * pw + k) * b
                    + c)) by (nonlinear_arith)
                    requires
                        q == p,
                        qw == pw,
                ;
                assert(0 <= (r * pw + k) * b + c < ph * pw * b) by (nonlinear_arith)
                    requires
                        0 <= r < ph,
                        0 <= k < pw,
                        0 <= c < b,
                ;
                assert(passes(raw, w, h, b, p)[(pass_start(w, h, q) + r * qw + k) * b + c] == rows[(r * pw + k) * b
                    + c]);
            }
        }
    }
}

proof fn lemma_deinterlaced_row_facts(d: Seq<u8>, w: int, h: int, b: int, y: int, x: int)
    requires
        1 <= b,
        d.len() == w * h * b,
        0 <= y < h,
        0 <= x <= w,
    ensures
        deinterlaced_row(d, w, h, b, y, x).len() == x * b,
        forall|k: int, c: int|
            0 <= k < x && 0 <= c < b ==> #[trigger] deinterlaced_row(d, w, h, b, y, x)[k * b + c] == d[source_pixel(
                w,
                h,
                k,
                y,
            ) * b + c],
    decreases x,
{
    if x > 0 {
        lemma_deinterlaced_row_facts(d, w, h, b, y, x - 1);
        lemma_source_range(w, h, x - 1, y);
        let src = source_pixel(w, h, x - 1, y);
        lemma_pixel_index(0, src, 1, w * h, b);
        lemma_mul_step(x - 1, b);
        let prev = deinterlaced_row(d, w, h, b, y, x - 1);
        assert forall|k: int, c: int| 0 <= k < x && 0 <= c < b implies #[trigger] deinterlaced_row(d, w, h, b, y, x)[k
            * b + c] == d[source_pixel(w, h, k, y) * b + c] by {
            if k < x - 1 {
                assert(0 <= k * b + c < (x - 1) * b) by (nonlinear_arith)
                    requires
                        0 <= k < x - 1,
                        0 <= c < b,
                ;
                assert(deinterlaced_row(d, w, h, b, y, x)[k * b + c] == prev[k * b + c]);
            } else {
                assert(deinterlaced_row(d, w, h, b, y, x)[k * b + c] == d.subrange(src * b, src * b + b)[c]);
            }
        }
    } else {
        assert(x * b == 0) by (nonlinear_arith)
            requires
                x == 0,
        ;
    }
}

proof fn lemma_deinterlaced_rows_facts(d: Seq<u8>, w: int, h: int, b: int, y: int)
    requires
        1 <= b,
        d.len() == w * h * b,
        0 <= y <= h,
        0 <= w,
    ensures
        deinterlaced_rows(d, w, h, b, y).len() == y * w * b,
        forall|yy: int, k: int, c: int|
            0 <= yy < y && 0 <= k < w && 0 <= c < b ==> #[trigger] deinterlaced_rows(d, w, h, b, y)[(yy * w + k) * b
                + c] == d[source_pixel(w, h, k, yy) * b + c],
    decreases y,
{
    if y > 0 {
        lemma_deinterlaced_rows_facts(d, w, h, b, y - 1);
        lemma_deinterlaced_row_facts(d, w, h, b, y - 1, w);
        let prev = deinterlaced_rows(d, w, h, b, y - 1);
        let row = deinterlaced_row(d, w, h, b, y - 1, w);
        assert(y * w * b == (y - 1) * w * b + w * b) by (nonlinear_arith);
        assert forall|yy: int, k: int, c: int| 0 <= yy < y && 0 <= k < w && 0 <= c < b implies #[trigger] deinterlaced_rows(
            d,
            w,
            h,
            b,
            y,
        )[(yy * w + k) * b + c] == d[source_pixel(w, h, k, yy) * b + c] by {
            if yy < y - 1 {
                assert(0 <= (yy * w + k) * b + c < (y - 1) * w * b) by (nonlinear_arith)
                    requires
                        0 <= yy < y - 1,
                        0 <= k < w,
                        0 <= c < b,
                ;
                assert(deinterlaced_rows(d, w, h, b, y)[(yy * w + k) * b + c] == prev[(yy * w + k) * b + c]);
            } else {
                assert((yy * w + k) * b + c == (y - 1) * w * b + (k * b + c)) by (nonlinear_arith)
                    requires
                        yy == y - 1,
                ;
                assert(0 <= k * b + c < w * b) by (nonlinear_arith)
                    requires
                        0 <= k < w,
                        0 <= c < b,
                ;
                assert(deinterlaced_rows(d, w, h, b, y)[(yy * w + k) * b + c] == row[k * b + c]);
            }
        }
    } else {
        assert(y * w * b == 0) by (nonlinear_arith)
            requires
                y == 0,
        ;
    }
}

proof fn lemma_undo_row(raw: Seq<u8>, w: int, h: int, b: int, y: int, x: int)
    requires
        1 <= b,
        raw.len() == w * h * b,
        0 <= y < h,
        0 <= x <= w,
    ensures
        deinterlaced_row(interlaced_data(raw, w, h, b), w, h, b, y, x) == raw.subrange(y * w * b, (y * w + x) * b),
{
    let il = interlaced_data(raw, w, h, b);
    lemma_passes_facts(raw, w, h, b, 7);
    lemma_pass_total(w, h);
    assert(il.len() == w * h * b) by (nonlinear_arith)
        requires
            il.len() == pass_start(w, h, 8) * b,
            pass_start(w, h, 8) == w * h,
    ;
    lemma_deinterlaced_row_facts(il, w, h, b, y, x);
    assert(0 <= y * w * b && (y * w + x) * b <= w * h * b) by (nonlinear_arith)
        requires
            0 <= y < h,
            0 <= x <= w,
            1 <= b,
    ;
    assert forall|j: int| 0 <= j < x * b implies #[trigger] deinterlaced_row(il, w, h, b, y, x)[j] == raw[y * w * b
        + j] by {
        let k = j / b;
        let c = j % b;
        assert(j == k * b + c && 0 <= c < b && 0 <= k < x) by (nonlinear_arith)
            requires
                0 <= j < x * b,
                b >= 1,
                k == j / b,
                c == j % b,
        ;
        lemma_pass_of(k, y, w, h);
        let q = pass_of(k, y);
        let (xs, ys, dx, dy) = adam7(q);
        let r = (y - ys) / dy;
        let i = (k - xs) / dx;
        assert(deinterlaced_row(il, w, h, b, y, x)[k * b + c] == il[source_pixel(w, h, k, y) * b + c]);
        assert(source_pixel(w, h, k, y) == pass_start(w, h, q) + r * pass_w(w, q) + i);
        assert(il[(pass_start(w, h, q) + r * pass_w(w, q) + i) * b + c] == raw[(((ys + r * dy) * w + xs + i * dx)) * b
            + c]);
        assert(y * w * b + j == (y * w + k) * b + c) by (nonlinear_arith)
            requires
                j == k * b + c,
        ;
    }
    assert((y * w + x) * b == y * w * b + x * b) by (nonlinear_arith);
    assert(deinterlaced_row(il, w, h, b, y, x) =~= raw.subrange(y * w * b, (y * w + x) * b));
}

proof fn lemma_undo_rows(raw: Seq<u8>, w: int, h: int, b: int, y: int)
    requires
        1 <= b,
        0 <= w,
        raw.len() == w * h * b,
        0 <= y <= h,
    ensures
        deinterlaced_rows(interlaced_data(raw, w, h, b), w, h, b, y) == raw.take(y * w * b),
    decreases y,
{
    let il = interlaced_data(raw, w, h, b);
    if y > 0 {
        lemma_undo_rows(raw, w, h, b, y - 1);
        lemma_undo_row(raw, w, h, b, y - 1, w);
        assert(y * w * b == (y - 1) * w * b + w * b && ((y - 1) * w + w) * b == y * w * b) by (nonlinear_arith);
        assert(0 <= (y - 1) * w * b && y * w * b <= w * h * b) by (nonlinear_arith)
            requires
                1 <= y <= h,
                0 <= w,
                1 <= b,
        ;
        assert(raw.take(y * w * b) =~= raw.take((y - 1) * w * b) + raw.subrange((y - 1) * w * b, y * w * b));
    } else {
        assert(y * w * b == 0) by (nonlinear_arith)
            requires
                y == 0,
        ;
        assert(raw.take(0) =~= Seq::<u8>::empty());
    }
}

/// Deinterlacing undoes interlacing: image data without interlacing (`b`
/// bytes per pixel), interlaced and deinterlaced again, is unchanged.
pub proof fn lemma_deinterlace_interlaced(raw: Seq<u8>, w: int, h: int, b: int)
    requires
        1 <= b,
        0 <= w,
        0 <= h,
        raw.len() == w * h * b,
    ensures
        deinterlaced_data(interlaced_data(raw, w, h, b), w, h, b) == raw,
{
    lemma_undo_rows(raw, w, h, b, h);
    assert(h * w * b == w * h * b) by (nonlinear_arith);
    assert(raw.take(h * w * b) =~= raw);
}

proof fn lemma_redo_row(d: Seq<u8>, w: int, h: int, b: int, p: int, r: int, i: int)
    requires
        1 <= b,
        0 <= w,
        0 <= h,
        d.len() == w * h * b,
        1 <= p <= 7,
        0 <= r < pass_h(h, p),
        0 <= i <= pass_w(w, p),
    ensures
        ({
            let start = pass_start(w, h, p) + r * pass_w(w, p);
            pass_row(deinterlaced_data(d, w, h, b), w, b, p, r, i) == d.subrange(start * b, (start + i) * b)
        }),
{
    let dd = deinterlaced_data(d, w, h, b);
    let pw = pass_w(w, p);
    let start = pass_start(w, h, p) + r * pw;
    lemma_deinterlaced_rows_facts(d, w, h, b, h);
    assert(dd.len() == w * h * b) by (nonlinear_arith)
        requires
            dd.len() == h * w * b,
    ;
    lemma_pass_row_facts(dd, w, h, b, p, r, i);
    lemma_pass_start_mono(w, h, p, 8);
    lemma_pass_start_mono(w, h, 1, p);
    lemma_pass_total(w, h);
    assert(0 <= r * pw && r * pw + i <= pw * pass_h(h, p)) by (nonlinear_arith)
        requires
            0 <= r < pass_h(h, p),
            0 <= i <= pw,
    ;
    assert(0 <= start * b && (start + i) * b <= w * h * b) by (nonlinear_arith)
        requires
            0 <= start,
            start + i <= w * h,
            1 <= b,
    ;
    assert forall|j: int| 0 <= j < i * b implies #[trigger] pass_row(dd, w, b, p, r, i)[j] == d[start * b + j] by {
        let k = j / b;
        let c = j % b;
        assert(j == k * b + c && 0 <= c < b && 0 <= k < i) by (nonlinear_arith)
            requires
                0 <= j < i * b,
                b >= 1,
                k == j / b,
                c == j % b,
        ;
        let (xs, ys, dx, dy) = adam7(p);
        lemma_in_pass(p, r, k, w, h);
        let x = xs + k * dx;
        let y = ys + r * dy;
        assert(pass_row(dd, w, b, p, r, i)[k * b + c] == dd[((ys + r * dy) * w + xs + k * dx) * b + c]);
        assert(dd[(y * w + x) * b + c] == d[source_pixel(w, h, x, y) * b + c]);
        assert(source_pixel(w, h, x, y) == start + k);
        assert(start * b + j == (start + k) * b + c) by (nonlinear_arith)
            requires
                j == k * b + c,
        ;
    }
    assert((start + i) * b == start * b + i * b) by (nonlinear_arith);
    assert(pass_row(dd, w, b, p, r, i) =~= d.subrange(start * b, (start + i) * b));
}

proof fn lemma_redo_rows(d: Seq<u8>, w: int, h: int, b: int, p: int, r: int)
    requires
        1 <= b,
        0 <= w,
        0 <= h,
        d.len() == w * h * b,
        1 <= p <= 7,
        0 <= r <= pass_h(h, p),
    ensures
        pass_rows(deinterlaced_data(d, w, h, b), w, h, b, p, r) == d.subrange(
            pass_start(w, h, p) * b,
            (pass_start(w, h, p) + r * pass_w(w, p)) * b,
        ),
    decreases r,
{
    let pw = pass_w(w, p);
    let ps = pass_start(w, h, p);
    lemma_pass_start_mono(w, h, p, 8);
    lemma_pass_start_mono(w, h, 1, p);
    lemma_pass_total(w, h);
    assert(0 <= r * pw <= pw * pass_h(h, p)) by (nonlinear_arith)
        requires
            0 <= r <= pass_h(h, p),
            0 <= pw,
    ;
    assert(0 <= ps * b && ps * b <= (ps + r * pw) * b && (ps + r * pw) * b <= w * h * b) by (nonlinear_arith)
        requires
            0 <= ps,
            0 <= r * pw,
            ps + r * pw <= w * h,
            1 <= b,
    ;
    if r > 0 {
        lemma_redo_rows(d, w, h, b, p, r - 1);
        lemma_redo_row(d, w, h, b, p, r - 1, pw);
        assert(0 <= (r - 1) * pw && r * pw <= pw * pass_h(h, p) && (r - 1) * pw + pw == r * pw) by (nonlinear_arith)
            requires
                1 <= r <= pass_h(h, p),
                0 <= pw,
        ;
        assert(0 <= ps * b && ps * b <= (ps + (r - 1) * pw) * b && (ps + (r - 1) * pw) * b <= (ps + r * pw) * b)
            by (nonlinear_arith)
            requires
                0 <= ps,
                0 <= (r - 1) * pw,
                (r - 1) * pw <= r * pw,
                1 <= b,
        ;
        assert(d.subrange(ps * b, (ps + r * pw) * b) =~= d.subrange(ps * b, (ps + (r - 1) * pw) * b) + d.subrange(
            (ps + (r - 1) * pw) * b,
            (ps + (r - 1) * pw + pw) * b,
        ));
    } else {
        assert(r * pw == 0) by (nonlinear_arith)
            requires
                r == 0,
        ;
        assert(d.subrange(ps * b, ps * b) =~= Seq::<u8>::empty());
    }
}

proof fn lemma_redo_passes(d: Seq<u8>, w: int, h: int, b: int, p: int)
    requires
        1 <= b,
        0 <= w,
        0 <= h,
        d.len() == w * h * b,
        0 <= p <= 7,
    ensures
        passes(deinterlaced_data(d, w, h, b), w, h, b, p) == d.take(pass_start(w, h, p + 1) * b),
    decreases p,
{
    lemma_pass_total(w, h);
    if p > 0 {
        lemma_redo_passes(d, w, h, b, p - 1);
        lemma_redo_rows(d, w, h, b, p, pass_h(h, p));
        lemma_pass_start_mono(w, h, p + 1, 8);
        lemma_pass_start_mono(w, h, 1, p);
        let ps = pass_start(w, h, p);
        let pe = pass_start(w, h, p + 1);
        assert(pe == ps + pass_h(h, p) * pass_w(w, p)) by (nonlinear_arith)
            requires
                pe == ps + pass_w(w, p) * pass_h(h, p),
        ;
        assert(0 <= ps * b && ps * b <= pe * b && pe * b <= w * h * b) by (nonlinear_arith)
            requires
                0 <= ps <= pe <= w * h,
                1 <= b,
        ;
        assert(d.take(pe * b) =~= d.take(ps * b) + d.subrange(ps * b, pe * b));
    } else {
        assert(d.take(0) =~= Seq::<u8>::empty());
    }
}

/// Interlacing undoes deinterlacing: interlaced data (`b` bytes per pixel),
/// deinterlaced and interlaced again, is unchanged.
pub proof fn lemma_interlace_deinterlaced(d: Seq<u8>, w: int, h: int, b: int)
    requires
        1 <= b,
        0 <= w,
        0 <= h,
        d.len() == w * h * b,
    ensures
        interlaced_data(deinterlaced_data(d, w, h, b), w, h, b) == d,
{
    lemma_redo_passes(d, w, h, b, 7);
    lemma_pass_total(w, h);
    assert(d.take(w * h * b) =~= d);
}

proof fn lemma_uniform_size(n: nat, tag: Option<u8>, len: int)
    ensures
        layout_size(Seq::new(n, |k: int| (tag, len)), 0) == n * len,
    decreases n,
{
    if n > 0 {
        lemma_uniform_size((n - 1) as nat, tag, len);
        assert(Seq::new(n, |k: int| (tag, len)).drop_last() =~= Seq::new((n - 1) as nat, |k: int| (tag, len)));
        assert(n * len == (n - 1) * len + len) by (nonlinear_arith);
    } else {
        assert(Seq::new(n, |k: int| (tag, len)) =~= Seq::<LineShape>::empty());
    }
}

proof fn lemma_passes_size(w: int, h: int, b: int, p: int)
    requires
        0 <= p <= 7,
        w >= 0,
        h >= 0,
        b >= 1,
    ensures
        layout_size(passes_upto(w, h, 8 * b, p), 0) == pass_start(w, h, p + 1) * b,
    decreases p,
{
    if p > 0 {
        lemma_passes_size(w, h, b, p - 1);
        let pw = pass_w(w, p);
        let ph = pass_h(h, p);
        lemma_layout_size_append(passes_upto(w, h, 8 * b, p - 1), pass_lines(w, h, 8 * b, p), 0);
        assert(line_bytes(pw, 8 * b) == pw * b) by (nonlinear_arith)
            requires
                line_bytes(pw, 8 * b) == (pw * (8 * b) + 7) / 8,
                pw >= 0,
        ;
        if pw == 0 || ph == 0 {
            assert(pass_lines(w, h, 8 * b, p) =~= Seq::<LineShape>::empty());
            assert(pw * ph == 0) by (nonlinear_arith)
                requires
                    pw == 0 || ph == 0,
            ;
        } else {
            lemma_uniform_size(ph as nat, Some(p as u8), line_bytes(pw, 8 * b));
            assert(pass_lines(w, h, 8 * b, p) =~= Seq::new(ph as nat, |k: int| (Some(p as u8), line_bytes(pw, 8 * b))));
        }
        assert(pass_start(w, h, p) * b + ph * (pw * b) == (pass_start(w, h, p) + pw * ph) * b) by (nonlinear_arith);
    } else {
        assert(passes_upto(w, h, 8 * b, 0) =~= Seq::<LineShape>::empty());
    }
}

/// With whole bytes per pixel, the data of an image, interlaced or not, holds
/// `width * height` pixels.
proof fn lemma_layout_bytes(w: int, h: int, b: int, interlaced: bool)
    requires
        w >= 0,
        h >= 0,
        b >= 1,
    ensures
        layout_size(layout_for(w, h, 8 * b, interlaced), 0) == w * h * b,
{
    if interlaced {
        lemma_passes_size(w, h, b, 7);
        lemma_pass_total(w, h);
    } else {
        lemma_uniform_size(h as nat, None, line_bytes(w, 8 * b));
        assert(line_bytes(w, 8 * b) == w * b) by (nonlinear_arith)
            requires
                line_bytes(w, 8 * b) == (w * (8 * b) + 7) / 8,
                w >= 0,
        ;
        assert(h * (w * b) == w * h * b) by (nonlinear_arith);
    }
}

/// The image data with its interlacing changed: Adam7-interlaced when
/// `interlace` holds, else without interlacing (`b` bytes per pixel).
pub open spec fn reinterlaced(data: Seq<u8>, w: int, h: int, b: int, interlace: bool) -> Seq<u8> {
    if interlace {
        interlaced_data(data, w, h, b)
    } else {
        deinterlaced_data(data, w, h, b)
    }
}

/// The image data with its interlacing changed from `from` to `interlace`.
/// At whole bytes per pixel the pixels are moved as they are; below a byte
/// the samples are read out one byte each, moved, and packed into the new
/// scanlines.
pub open spec fn changed_data(w: int, h: int, bpp: int, data: Seq<u8>, from: bool, interlace: bool) -> Seq<u8> {
    if bpp >= 8 {
        reinterlaced(data, w, h, bpp / 8, interlace)
    } else {
        packed(
            reinterlaced(unpacked(data, line_widths(w, h, from), bpp as u8), w, h, 1, interlace),
            line_widths(w, h, interlace),
            bpp as u8,
        )
    }
}

/// What changing the interlacing of `png` gives: nothing when it is already
/// as asked, else the image with the same header but for the interlacing,
/// and its data moved accordingly.
pub open spec fn interlace_outcome(png: PngImage, interlace: bool, r: Option<PngImage>) -> bool {
    &&& interlace == png.ihdr.interlaced ==> r is None
    &&& interlace != png.ihdr.interlaced ==> (r matches Some(img) && {
        &&& img.wf()
        &&& img.ihdr.width == png.ihdr.width
        &&& img.ihdr.height == png.ihdr.height
        &&& same_color_type(img.ihdr.color_type, png.ihdr.color_type)
        &&& img.ihdr.bit_depth == png.ihdr.bit_depth
        &&& img.ihdr.interlaced == interlace
        &&& img.data@ == changed_data(
            png.ihdr.width as int,
            png.ihdr.height as int,
            png.ihdr.spec_bpp(),
            png.data@,
            png.ihdr.interlaced,
            interlace,
        )
    })
}

/// Enable or disable interlacing, returning the new image if it was changed
pub fn changed_interlacing(png: &PngImage, interlace: bool) -> (r: Option<PngImage>)
    requires
        png.wf(),
        layout_size(
            layout_for(png.ihdr.width as int, png.ihdr.height as int, png.ihdr.spec_bpp(), interlace),
            1,
        ) <= usize::MAX,
        png.ihdr.spec_bpp() < 8 ==> png.ihdr.width * png.ihdr.height <= usize::MAX,
    ensures
        interlace_outcome(*png, interlace, r),
{
    if interlace == png.ihdr.interlaced {
        return None;
    }
    let bpp = png.ihdr.bpp();
    let w = png.ihdr.width;
    let h = png.ihdr.height;
    let ihdr = IhdrData {
        width: w,
        height: h,
        color_type: png.ihdr.color_type.duplicate(),
        bit_depth: png.ihdr.bit_depth,
        interlaced: interlace,
    };
    assert(ihdr.spec_bpp() == bpp);
    proof {
        crate::headers::lemma_layout_lines(png.ihdr);
        crate::png::lemma_image_layout(png.ihdr);
        crate::headers::lemma_layout_size_nonneg(png.ihdr.spec_layout(), 0);
        crate::png::lemma_image_layout(ihdr);
        crate::headers::lemma_layout_size_nonneg(ihdr.spec_layout(), 0);
        assert(layout_size(ihdr.spec_layout(), 0) <= layout_size(ihdr.spec_layout(), 1)) by {
            lemma_size_filter_mono(ihdr.spec_layout());
        }
    }
    if bpp < 8 {
        let data = changed_low_depth(&png.data, w, h, bpp as u8, png.ihdr.interlaced, interlace);
        return Some(PngImage { ihdr, data });
    }
    let b = bpp / 8;
    proof {
        assert(bpp == 8 * b) by {
            let ch = png.ihdr.color_type.spec_channels() as int;
            let bits = png.ihdr.bit_depth.spec_bits() as int;
            let code = png.ihdr.color_type.spec_header_code();
            assert(1 <= ch <= 4);
            assert(bpp == bits * ch);
            if bits < 8 {
                assert(code == 0 || code == 3);
                assert(ch == 1);
                assert(bits * ch < 8) by (nonlinear_arith)
                    requires
                        ch == 1,
                        bits < 8,
                ;
            }
            assert(bpp % 8 == 0) by (nonlinear_arith)
                requires
                    bpp == bits * ch,
                    bits == 8 || bits == 16,
            ;
        }
        lemma_layout_bytes(w as int, h as int, b as int, png.ihdr.interlaced);
        lemma_layout_bytes(w as int, h as int, b as int, interlace);
    }
    let data = if interlace {
        interlace_bytes(&png.data, w, h, b)
    } else {
        deinterlace_bytes(&png.data, w, h, b)
    };
    proof {
        lemma_pass_total(w as int, h as int);
        if interlace {
            lemma_passes_facts(png.data@, w as int, h as int, b as int, 7);
            assert(pass_start(w as int, h as int, 8) * b == w * h * b);
        } else {
            lemma_deinterlaced_rows_facts(png.data@, w as int, h as int, b as int, h as int);
            assert(h * w * b == w * h * b) by (nonlinear_arith);
        }
    }
    Some(PngImage { ihdr, data })
}

/// The data of an image of depth `d` below a byte, with its interlacing
/// changed from `from` to `interlace`.
fn changed_low_depth(data: &Vec<u8>, w: u32, h: u32, d: u8, from: bool, interlace: bool) -> (r: Vec<u8>)
    requires
        low_depth(d),
        w >= 1,
        h >= 1,
        w * h <= usize::MAX,
        data@.len() == layout_size(layout_for(w as int, h as int, d as int, from), 0),
        layout_size(layout_for(w as int, h as int, d as int, interlace), 0) <= usize::MAX,
    ensures
        r@ == changed_data(w as int, h as int, d as int, data@, from, interlace),
        r@.len() == layout_size(layout_for(w as int, h as int, d as int, interlace), 0),
{
    let src = line_widths_exec(w, h, from);
    let dst = line_widths_exec(w, h, interlace);
    let ghost ws = line_widths(w as int, h as int, from);
    let ghost wd = line_widths(w as int, h as int, interlace);
    proof {
        lemma_layout_depths(w as int, h as int, d as int, from);
        lemma_layout_depths(w as int, h as int, d as int, interlace);
        let ls = layout_for(w as int, h as int, d as int, from);
        let ld = layout_for(w as int, h as int, d as int, interlace);
        lemma_bytes_before_layout(ls, ws, d, ws.len() as int);
        lemma_bytes_before_layout(ld, wd, d, wd.len() as int);
        assert(ls.take(ws.len() as int) =~= ls);
        assert(ld.take(wd.len() as int) =~= ld);
        lemma_line_widths_total(w as int, h as int, from);
        lemma_line_widths_total(w as int, h as int, interlace);
        lemma_layout_bytes(w as int, h as int, 1, from);
        lemma_layout_bytes(w as int, h as int, 1, interlace);
    }
    let vals = unpack_samples(data, &src, d);
    let moved = if interlace {
        interlace_bytes(&vals, w, h, 1)
    } else {
        deinterlace_bytes(&vals, w, h, 1)
    };
    proof {
        lemma_pass_total(w as int, h as int);
        if interlace {
            lemma_passes_facts(vals@, w as int, h as int, 1, 7);
        } else {
            lemma_deinterlaced_rows_facts(vals@, w as int, h as int, 1, h as int);
            assert(h * w * 1 == w * h) by (nonlinear_arith);
        }
    }
    pack_samples(&moved, &dst, d)
}

proof fn lemma_size_filter_mono(s: Seq<LineShape>)
    ensures
        layout_size(s, 0) <= layout_size(s, 1),
        layout_size(s, 1) == layout_size(s, 0) + s.len(),
    decreases s.len(),
{
    if s.len() > 0 {
        lemma_size_filter_mono(s.drop_last());
    }
}

impl PngImage {
    /// Convert the image to interlaced or progressive scan mode, returning
    /// the new image if it was changed
    pub fn change_interlacing(&self, interlace: bool) -> (r: Option<PngImage>)
        requires
            self.wf(),
            layout_size(
                layout_for(self.ihdr.width as int, self.ihdr.height as int, self.ihdr.spec_bpp(), interlace),
                1,
            ) <= usize::MAX,
            self.ihdr.spec_bpp() < 8 ==> self.ihdr.width * self.ihdr.height <= usize::MAX,
        ensures
            interlace_outcome(*self, interlace, r),
    {
        changed_interlacing(self, interlace)
    }
}


proof fn lemma_masked_concat(a: Seq<u8>, b: Seq<u8>, d: u8)
    requires
        masked_ok(a, d),
        masked_ok(b, d),
    ensures
        masked_ok(a + b, d),
{
    assert forall|i: int| 0 <= i < (a + b).len() implies (#[trigger] (a + b)[i]) & crate::bit_depth::sample_mask(d)
        == (a + b)[i] by {
        if i < a.len() {
            assert((a + b)[i] == a[i]);
        } else {
            assert((a + b)[i] == b[i - a.len()]);
        }
    }
}

proof fn lemma_masked_subrange(a: Seq<u8>, s: int, e: int, d: u8)
    requires
        masked_ok(a, d),
        0 <= s <= e <= a.len(),
    ensures
        masked_ok(a.subrange(s, e), d),
{
    assert forall|i: int| 0 <= i < e - s implies (#[trigger] a.subrange(s, e)[i]) & crate::bit_depth::sample_mask(d)
        == a.subrange(s, e)[i] by {
        assert(a.subrange(s, e)[i] == a[s + i]);
    }
}

proof fn lemma_pass_row_masked(raw: Seq<u8>, w: int, h: int, p: int, r: int, i: int, d: u8)
    requires
        masked_ok(raw, d),
        raw.len() == w * h,
        1 <= p <= 7,
        0 <= r < pass_h(h, p),
        0 <= i <= pass_w(w, p),
    ensures
        masked_ok(pass_row(raw, w, 1, p, r, i), d),
    decreases i,
{
    if i > 0 {
        lemma_pass_row_masked(raw, w, h, p, r, i - 1, d);
        let (xs, ys, dx, dy) = adam7(p);
        lemma_in_pass(p, r, i - 1, w, h);
        let x = xs + (i - 1) * dx;
        let y = ys + r * dy;
        assert(0 <= y * w + x < w * h) by (nonlinear_arith)
            requires
                0 <= x < w,
                0 <= y < h,
        ;
        lemma_masked_subrange(raw, (y * w + x) * 1, (y * w + x) * 1 + 1, d);
        lemma_masked_concat(pass_row(raw, w, 1, p, r, i - 1), pixel_at(raw, w, 1, x, y), d);
    } else {
        assert(masked_ok(Seq::<u8>::empty(), d));
    }
}

proof fn lemma_passes_masked(raw: Seq<u8>, w: int, h: int, p: int, d: u8)
    requires
        masked_ok(raw, d),
        raw.len() == w * h,
        w >= 0,
        0 <= p <= 7,
    ensures
        masked_ok(passes(raw, w, h, 1, p), d),
    decreases p,
{
    if p > 0 {
        lemma_passes_masked(raw, w, h, p - 1, d);
        lemma_pass_rows_masked(raw, w, h, p, pass_h(h, p), d);
        lemma_masked_concat(passes(raw, w, h, 1, p - 1), pass_rows(raw, w, h, 1, p, pass_h(h, p)), d);
    } else {
        assert(masked_ok(Seq::<u8>::empty(), d));
    }
}

proof fn lemma_pass_rows_masked(raw: Seq<u8>, w: int, h: int, p: int, r: int, d: u8)
    requires
        masked_ok(raw, d),
        raw.len() == w * h,
        w >= 0,
        1 <= p <= 7,
        0 <= r <= pass_h(h, p),
    ensures
        masked_ok(pass_rows(raw, w, h, 1, p, r), d),
    decreases r,
{
    if r > 0 {
        lemma_pass_rows_masked(raw, w, h, p, r - 1, d);
        let (xs, ys, dx, dy) = adam7(p);
        assert(pass_w(w, p) >= 0) by {
            crate::bit_depth::lemma_pass_extent_bound(xs, dx, w);
        }
        lemma_pass_row_masked(raw, w, h, p, r - 1, pass_w(w, p), d);
        lemma_masked_concat(pass_rows(raw, w, h, 1, p, r - 1), pass_row(raw, w, 1, p, r - 1, pass_w(w, p)), d);
    } else {
        assert(masked_ok(Seq::<u8>::empty(), d));
    }
}

proof fn lemma_deinterlaced_masked(src: Seq<u8>, w: int, h: int, y: int, x: int, d: u8)
    requires
        masked_ok(src, d),
        src.len() == w * h,
        0 <= y < h,
        0 <= x <= w,
    ensures
        masked_ok(deinterlaced_row(src, w, h, 1, y, x), d),
    decreases x,
{
    if x > 0 {
        lemma_deinterlaced_masked(src, w, h, y, x - 1, d);
        lemma_source_range(w, h, x - 1, y);
        let k = source_pixel(w, h, x - 1, y);
        lemma_masked_subrange(src, k * 1, k * 1 + 1, d);
        lemma_masked_concat(deinterlaced_row(src, w, h, 1, y, x - 1), src.subrange(k * 1, k * 1 + 1), d);
    } else {
        assert(masked_ok(Seq::<u8>::empty(), d));
    }
}

proof fn lemma_deinterlaced_rows_masked(src: Seq<u8>, w: int, h: int, y: int, d: u8)
    requires
        masked_ok(src, d),
        src.len() == w * h,
        w >= 0,
        0 <= y <= h,
    ensures
        masked_ok(deinterlaced_rows(src, w, h, 1, y), d),
    decreases y,
{
    if y > 0 {
        lemma_deinterlaced_rows_masked(src, w, h, y - 1, d);
        lemma_deinterlaced_masked(src, w, h, y - 1, w, d);
        lemma_masked_concat(deinterlaced_rows(src, w, h, 1, y - 1), deinterlaced_row(src, w, h, 1, y - 1, w), d);
    } else {
        assert(masked_ok(Seq::<u8>::empty(), d));
    }
}

/// Moving one-byte samples between interlaced and progressive order keeps
/// every sample within `d` bits.
proof fn lemma_reinterlaced_masked(x: Seq<u8>, w: int, h: int, interlace: bool, d: u8)
    requires
        masked_ok(x, d),
        x.len() == w * h,
        w >= 0,
        h >= 0,
    ensures
        masked_ok(reinterlaced(x, w, h, 1, interlace), d),
{
    if interlace {
        lemma_passes_masked(x, w, h, 7, d);
    } else {
        lemma_deinterlaced_rows_masked(x, w, h, h, d);
    }
}

/// The facts about the lines of an image of depth `d` that the round trip
/// rests on.
proof fn lemma_low_depth_lines(w: int, h: int, d: u8, interlaced: bool)
    requires
        low_depth(d),
        w >= 0,
        h >= 0,
    ensures
        widths_ok(line_widths(w, h, interlaced)),
        pixels_before(line_widths(w, h, interlaced), line_widths(w, h, interlaced).len() as int) == w * h,
        bytes_before(line_widths(w, h, interlaced), d, line_widths(w, h, interlaced).len() as int) == layout_size(
            layout_for(w, h, d as int, interlaced),
            0,
        ),
{
    let ws = line_widths(w, h, interlaced);
    let l = layout_for(w, h, d as int, interlaced);
    lemma_layout_depths(w, h, d as int, interlaced);
    assert forall|k: int| 0 <= k < ws.len() implies #[trigger] ws[k] >= 0 by {
        assert(l[k].1 == line_bytes(ws[k], d as int));
    }
    lemma_line_widths_total(w, h, interlaced);
    lemma_layout_bytes(w, h, 1, interlaced);
    lemma_bytes_before_layout(l, ws, d, ws.len() as int);
    assert(l.take(ws.len() as int) =~= l);
}

/// Changing the interlacing of image data and changing it back gives the
/// data back. Below a byte per pixel this holds when the bits past the last
/// sample of each line are zero, as they are in data that this module wrote.
pub proof fn lemma_interlacing_round_trip(w: int, h: int, bpp: int, data: Seq<u8>, interlaced: bool)
    requires
        w >= 0,
        h >= 0,
        bpp == 1 || bpp == 2 || bpp == 4 || (bpp >= 8 && bpp % 8 == 0),
        data.len() == layout_size(layout_for(w, h, bpp, interlaced), 0),
        bpp < 8 ==> padding_clear(data, line_widths(w, h, interlaced), bpp as u8),
    ensures
        changed_data(w, h, bpp, changed_data(w, h, bpp, data, interlaced, !interlaced), !interlaced, interlaced)
            == data,
{
    if bpp >= 8 {
        let b = bpp / 8;
        assert(bpp == 8 * b);
        lemma_layout_bytes(w, h, b, interlaced);
        if interlaced {
            lemma_interlace_deinterlaced(data, w, h, b);
        } else {
            lemma_deinterlace_interlaced(data, w, h, b);
        }
    } else {
        let d = bpp as u8;
        let ws = line_widths(w, h, interlaced);
        let wt = line_widths(w, h, !interlaced);
        lemma_low_depth_lines(w, h, d, interlaced);
        lemma_low_depth_lines(w, h, d, !interlaced);
        let x = unpacked(data, ws, d);
        crate::bit_depth::lemma_unpacked_len(data, ws, d);
        lemma_unpacked_masked(data, ws, d, ws.len() as int);
        let y = reinterlaced(x, w, h, 1, !interlaced);
        lemma_reinterlaced_masked(x, w, h, !interlaced, d);
        assert(y.len() == w * h) by {
            lemma_pass_total(w, h);
            if !interlaced {
                lemma_passes_facts(x, w, h, 1, 7);
            } else {
                lemma_deinterlaced_rows_facts(x, w, h, 1, h);
                assert(h * w * 1 == w * h) by (nonlinear_arith);
            }
        }
        lemma_unpack_packed(y, wt, d);
        if interlaced {
            lemma_interlace_deinterlaced(x, w, h, 1);
        } else {
            lemma_deinterlace_interlaced(x, w, h, 1);
        }
        lemma_pack_unpacked(data, ws, d);
    }
}

/// Below a byte per pixel, the bits past the last sample of each line of
/// changed data are zero.
pub proof fn lemma_changed_padding(w: int, h: int, bpp: int, data: Seq<u8>, from: bool, interlace: bool)
    requires
        w >= 0,
        h >= 0,
        bpp == 1 || bpp == 2 || bpp == 4,
    ensures
        padding_clear(changed_data(w, h, bpp, data, from, interlace), line_widths(w, h, interlace), bpp as u8),
{
    lemma_low_depth_lines(w, h, bpp as u8, interlace);
    lemma_packed_padding(
        reinterlaced(unpacked(data, line_widths(w, h, from), bpp as u8), w, h, 1, interlace),
        line_widths(w, h, interlace),
        bpp as u8,
    );
}

} // verus!
