use indexmap::IndexSet;
use vstd::prelude::*;

use crate::colors::{BitDepth, ColorType, Rgba8};
use crate::headers::IhdrData;
use crate::headers::layout_size;
use crate::png::{
    PngImage, ScanLine, concat, image_lines, lemma_concat_append, lemma_concat_image_lines, lemma_concat_push,
    lemma_image_layout, lines_data,
};

verus! {

/// The adjacencies that position `p` of line `k` adds: with the byte before it
/// on its line, and with the byte at the same position on the previous line
/// (when that line is as long).
pub open spec fn pair_events(lines: Seq<Seq<u8>>, k: int, p: int, a: int, b: int) -> int {
    (if p >= 1 && lines[k][p - 1] == a && lines[k][p] == b {
        1int
    } else {
        0int
    }) + (if k >= 1 && p < lines[k - 1].len() && lines[k - 1][p] == a && lines[k][p] == b {
        1int
    } else {
        0int
    })
}

/// How often byte `b` follows byte `a`, horizontally or vertically, before
/// position `p` of line `k`.
pub open spec fn pair_count(lines: Seq<Seq<u8>>, k: nat, p: int, a: int, b: int) -> int
    decreases k, p,
{
    if p <= 0 {
        if k == 0 {
            0
        } else {
            pair_count(lines, (k - 1) as nat, lines[k - 1].len() as int, a, b)
        }
    } else {
        pair_count(lines, k, p - 1, a, b) + pair_events(lines, k as int, p - 1, a, b)
    }
}

/// How often byte `b` follows byte `a` in the image.
pub open spec fn pair_total(lines: Seq<Seq<u8>>, a: int, b: int) -> int {
    pair_count(lines, lines.len(), 0, a, b)
}

/// The co-occurrence of colors `a` and `b`: how often they are adjacent, in
/// either order (twice for a color with itself).
pub open spec fn co_occurrence(lines: Seq<Seq<u8>>, a: int, b: int) -> int {
    pair_total(lines, a, b) + pair_total(lines, b, a)
}

/// The co-occurrence matrix records the number of times each color is adjacent to every other color.
#[derive(Debug)]
pub struct CoOccurrenceMatrix {
    num_colors: usize,
    data: Vec<u32>,
    weighted_edges: Vec<(u8, u8, u32)>,
}

proof fn lemma_row_range(n: int, i: int)
    requires
        0 <= i < n <= 256,
    ensures
        0 <= i * n,
        i * n + n <= n * n,
        n * n <= 65536,
        cell(n, i, 0) == i * n,
{
    assert(i * n + n <= n * n && 0 <= i * n && n * n <= 65536) by (nonlinear_arith)
        requires
            0 <= i < n <= 256,
    ;
}

/// The position of row `a`, column `b` in a flat `n` by `n` matrix.
pub open spec fn cell(n: int, a: int, b: int) -> int {
    a * n + b
}

proof fn lemma_cell(n: int, a: int, b: int)
    requires
        0 <= a < n,
        0 <= b < n,
    ensures
        0 <= cell(n, a, b) < n * n,
        forall|c: int, d: int|
            0 <= c < n && 0 <= d < n && #[trigger] cell(n, c, d) == cell(n, a, b) ==> c == a && d == b,
{
    assert(0 <= a * n + b < n * n) by (nonlinear_arith)
        requires
            0 <= a < n,
            0 <= b < n,
    ;
    assert forall|c: int, d: int| 0 <= c < n && 0 <= d < n && #[trigger] cell(n, c, d) == cell(n, a, b) implies c == a
        && d == b by {
        assert(c == a && d == b) by (nonlinear_arith)
            requires
                0 <= a < n,
                0 <= b < n,
                0 <= c < n,
                0 <= d < n,
                c * n + d == a * n + b,
        ;
    }
}

proof fn lemma_concat_take(l: Seq<Seq<u8>>, k: int)
    requires
        0 <= k < l.len(),
    ensures
        concat(l.take(k)).len() + l[k].len() <= concat(l).len(),
{
    lemma_concat_append(l.take(k + 1), l.skip(k + 1));
    assert(l.take(k + 1) + l.skip(k + 1) =~= l);
    assert(l.take(k + 1) =~= l.take(k).push(l[k]));
    lemma_concat_push(l.take(k), l[k]);
}

/// The bytes of every line are bytes of the image data.
proof fn lemma_line_bytes(png: PngImage, bound: int)
    requires
        png.wf(),
        forall|x: int| 0 <= x < png.data@.len() ==> png.data@[x] < bound,
    ensures
        forall|k: int, i: int|
            0 <= k < png.ihdr.spec_layout().len() && 0 <= i < image_lines(png.ihdr.spec_layout(), png.data@)[k].len()
                ==> #[trigger] image_lines(png.ihdr.spec_layout(), png.data@)[k][i] < bound,
        concat(image_lines(png.ihdr.spec_layout(), png.data@)) == png.data@,
{
    let layout = png.ihdr.spec_layout();
    let n = layout.len();
    lemma_image_layout(png.ihdr);
    lemma_concat_image_lines(layout, png.data@, n);
    assert(layout.take(n as int) =~= layout);
    assert(image_lines(layout, png.data@).take(n as int) =~= image_lines(layout, png.data@));
    assert(png.data@.subrange(0, png.data@.len() as int) =~= png.data@);
    let lines = image_lines(layout, png.data@);
    crate::headers::lemma_layout_size_nonneg(layout, 0);
    assert forall|k: int, i: int| 0 <= k < n && 0 <= i < lines[k].len() implies #[trigger] lines[k][i] < bound by {
        lemma_concat_take(lines, k);
        lemma_concat_image_lines(layout, png.data@, k as nat);
        lemma_concat_image_lines(layout, png.data@, (k + 1) as nat);
        assert(lines.take(k + 1) =~= lines.take(k).push(lines[k]));
        lemma_concat_push(lines.take(k), lines[k]);
        let off = concat(lines.take(k)).len() as int;
        let big = concat(lines.take(k + 1));
        assert(big == concat(lines.take(k)) + lines[k]);
        assert(big[off + i] == lines[k][i]);
        assert(layout_size(layout.take(k + 1), 0) <= layout_size(layout, 0));
        assert(big == png.data@.subrange(0, layout_size(layout.take(k + 1), 0)));
        assert(big.len() == off + lines[k].len());
        assert(0 <= off + i < big.len());
        let sz = layout_size(layout.take(k + 1), 0);
        let t = layout.take(k + 1);
        assert forall|j: int| 0 <= j < t.len() implies (#[trigger] t[j]).1 >= 0 by {
            assert(t[j] == layout[j]);
        }
        crate::headers::lemma_layout_size_nonneg(t, 0);
        assert(0 <= sz);
        assert(sz <= png.data@.len());
        assert(big.len() == sz);
        assert(png.data@.subrange(0, layout_size(layout.take(k + 1), 0))[off + i] == png.data@[off + i]);
        assert(big[off + i] == png.data@[off + i]);
    }
}

/// Whether color `v` occurs in the image data.
pub open spec fn color_used(png: PngImage, v: int) -> bool {
    exists|x: int| 0 <= x < png.data@.len() && #[trigger] png.data@[x] == v
}

/// Whether every color of `0..n` occurs in the image data.
pub open spec fn all_used(png: PngImage, n: int) -> bool {
    forall|v: int| 0 <= v < n ==> #[trigger] color_used(png, v)
}

/// Each line of a well-formed image is as long as its layout says, and so
/// not empty.
proof fn lemma_lines_len(png: PngImage)
    requires
        png.wf(),
    ensures
        forall|k: int|
            0 <= k < png.ihdr.spec_layout().len() ==> (#[trigger] image_lines(png.ihdr.spec_layout(), png.data@)[k]).len()
                == png.ihdr.spec_layout()[k].1 && png.ihdr.spec_layout()[k].1 >= 1,
{
    let layout = png.ihdr.spec_layout();
    let lines = image_lines(layout, png.data@);
    lemma_image_layout(png.ihdr);
    assert forall|k: int| 0 <= k < layout.len() implies (#[trigger] lines[k]).len() == layout[k].1 && layout[k].1 >= 1 by {
        let t = layout.take(k + 1);
        assert(t.drop_last() =~= layout.take(k));
        assert(layout.take(k + 1) + layout.skip(k + 1) =~= layout);
        crate::headers::lemma_layout_size_append(layout.take(k + 1), layout.skip(k + 1), 0);
        let u = layout.skip(k + 1);
        assert forall|j: int| 0 <= j < u.len() implies (#[trigger] u[j]).1 >= 0 by {
            assert(u[j] == layout[k + 1 + j]);
        }
        crate::headers::lemma_layout_size_nonneg(u, 0);
        let w = layout.take(k);
        assert forall|j: int| 0 <= j < w.len() implies (#[trigger] w[j]).1 >= 0 by {
            assert(w[j] == layout[j]);
        }
        crate::headers::lemma_layout_size_nonneg(w, 0);
    }
}

/// Where byte `x` of the lines one after the other stands.
proof fn lemma_concat_index(s: Seq<Seq<u8>>, x: int)
    requires
        0 <= x < concat(s).len(),
    ensures
        exists|k: int, p: int| 0 <= k < s.len() && 0 <= p < s[k].len() && #[trigger] s[k][p] == concat(s)[x],
    decreases s.len(),
{
    let d = s.drop_last();
    if x < concat(d).len() {
        lemma_concat_index(d, x);
        let (k, p) = choose|k: int, p: int| 0 <= k < d.len() && 0 <= p < d[k].len() && #[trigger] d[k][p] == concat(d)[x];
        assert(s[k][p] == concat(s)[x]);
    } else {
        let p = x - concat(d).len();
        assert(s[s.len() - 1][p] == concat(s)[x]);
    }
}

/// Whether position `p` of line `k` is adjacent to the position before it
/// (on its line, or at the start of the previous line) with a byte on the
/// other side of `s`.
pub open spec fn cut_at(lines: Seq<Seq<u8>>, s: Set<int>, k: int, p: int) -> bool {
    &&& 0 <= k < lines.len()
    &&& 0 <= p < lines[k].len()
    &&& (p >= 1 && s.contains(lines[k][p - 1] as int) != s.contains(lines[k][p] as int)) || (p == 0 && k >= 1
        && s.contains(lines[k - 1][0] as int) != s.contains(lines[k][0] as int))
}

proof fn lemma_uniform(lines: Seq<Seq<u8>>, s: Set<int>, k: int, p: int)
    requires
        forall|j: int| 0 <= j < lines.len() ==> (#[trigger] lines[j]).len() >= 1,
        forall|j: int, q: int| !#[trigger] cut_at(lines, s, j, q),
        0 <= k < lines.len(),
        0 <= p < lines[k].len(),
    ensures
        s.contains(lines[k][p] as int) == s.contains(lines[0][0] as int),
    decreases k, p,
{
    assert(!cut_at(lines, s, k, p));
    if p >= 1 {
        lemma_uniform(lines, s, k, p - 1);
    } else if k >= 1 {
        assert(lines[k - 1].len() >= 1);
        lemma_uniform(lines, s, k - 1, 0);
    }
}

proof fn lemma_pair_count_nonneg(lines: Seq<Seq<u8>>, k: nat, p: int, a: int, b: int)
    ensures
        pair_count(lines, k, p, a, b) >= 0,
    decreases k, p,
{
    if p <= 0 {
        if k > 0 {
            lemma_pair_count_nonneg(lines, (k - 1) as nat, lines[k - 1].len() as int, a, b);
        }
    } else {
        lemma_pair_count_nonneg(lines, k, p - 1, a, b);
    }
}

proof fn lemma_pair_count_mono(lines: Seq<Seq<u8>>, k: nat, p: int, q: int, a: int, b: int)
    requires
        0 <= p <= q,
    ensures
        pair_count(lines, k, p, a, b) <= pair_count(lines, k, q, a, b),
    decreases q,
{
    if q > p {
        lemma_pair_count_mono(lines, k, p, q - 1, a, b);
    }
}

proof fn lemma_pair_count_lines(lines: Seq<Seq<u8>>, k: nat, m: nat, a: int, b: int)
    requires
        k < m <= lines.len(),
    ensures
        pair_count(lines, k, lines[k as int].len() as int, a, b) <= pair_count(lines, m, 0, a, b),
    decreases m,
{
    if m > k + 1 {
        lemma_pair_count_lines(lines, k, (m - 1) as nat, a, b);
        lemma_pair_count_mono(lines, (m - 1) as nat, 0, lines[m - 1].len() as int, a, b);
    }
}

/// An adjacency of `a` then `b` counts towards their total.
proof fn lemma_event_counted(lines: Seq<Seq<u8>>, k: int, p: int, a: int, b: int)
    requires
        0 <= k < lines.len(),
        0 <= p < lines[k].len(),
    ensures
        pair_events(lines, k, p, a, b) <= pair_total(lines, a, b),
{
    lemma_pair_count_nonneg(lines, k as nat, p, a, b);
    lemma_pair_count_mono(lines, k as nat, p + 1, lines[k].len() as int, a, b);
    lemma_pair_count_lines(lines, k as nat, lines.len(), a, b);
}

/// In an image whose palette entries all occur, every set that holds some of
/// the colors but not all of them has a color adjacent to one outside it.
proof fn lemma_image_connected(png: PngImage, n: int, s: Set<int>)
    requires
        png.wf(),
        1 <= n <= 256,
        forall|x: int| 0 <= x < png.data@.len() ==> png.data@[x] < n,
        all_used(png, n),
        splits(s, n),
    ensures
        exists|a: int, b: int|
            0 <= a < n && 0 <= b < n && s.contains(a) && !s.contains(b) && co_occurrence(
                image_lines(png.ihdr.spec_layout(), png.data@),
                a,
                b,
            ) > 0,
{
    let layout = png.ihdr.spec_layout();
    let lines = image_lines(layout, png.data@);
    lemma_line_bytes(png, n);
    lemma_lines_len(png);
    assert forall|j: int| 0 <= j < lines.len() implies (#[trigger] lines[j]).len() >= 1 by {
        assert(lines[j].len() == layout[j].1);
    }
    let a0 = choose|a: int| 0 <= a < n && s.contains(a);
    let b0 = choose|b: int| 0 <= b < n && !s.contains(b);
    assert(color_used(png, a0) && color_used(png, b0));
    let xa = choose|x: int| 0 <= x < png.data@.len() && #[trigger] png.data@[x] == a0;
    let xb = choose|x: int| 0 <= x < png.data@.len() && #[trigger] png.data@[x] == b0;
    lemma_concat_index(lines, xa);
    lemma_concat_index(lines, xb);
    let (ka, pa) = choose|k: int, p: int| 0 <= k < lines.len() && 0 <= p < lines[k].len() && #[trigger] lines[k][p]
        == concat(lines)[xa];
    let (kb, pb) = choose|k: int, p: int| 0 <= k < lines.len() && 0 <= p < lines[k].len() && #[trigger] lines[k][p]
        == concat(lines)[xb];
    assert(exists|k: int, p: int| #[trigger] cut_at(lines, s, k, p)) by {
        if forall|k: int, p: int| !#[trigger] cut_at(lines, s, k, p) {
            lemma_uniform(lines, s, ka, pa);
            lemma_uniform(lines, s, kb, pb);
        }
    }
    let (k, p) = choose|k: int, p: int| #[trigger] cut_at(lines, s, k, p);
    let (kx, px) = if p >= 1 {
        (k, p - 1)
    } else {
        (k - 1, 0int)
    };
    let x = lines[kx][px] as int;
    let y = lines[k][p] as int;
    assert(x < n && y < n);
    assert(pair_events(lines, k, p, x, y) >= 1);
    lemma_event_counted(lines, k, p, x, y);
    lemma_pair_count_nonneg(lines, lines.len(), 0, y, x);
    if s.contains(x) {
        assert(co_occurrence(lines, x, y) > 0);
    } else {
        assert(co_occurrence(lines, y, x) > 0);
    }
}

impl CoOccurrenceMatrix {
    /// The counts of the matrix, row by row.
    pub closed spec fn spec_data(&self) -> Seq<u32> {
        self.data@
    }

    /// The number of colors of the matrix.
    pub closed spec fn spec_num_colors(&self) -> int {
        self.num_colors as int
    }

    /// Construct the co-occurrence data: how often each two colors are
    /// adjacent, horizontally or vertically (the previous line is used across
    /// interlacing passes too, where it may be shorter).
    fn build(num_colors: usize, png: &PngImage) -> (data: Vec<u32>)
        requires
            png.wf(),
            1 <= num_colors <= 256,
            4 * png.data@.len() <= u32::MAX,
            forall|x: int| 0 <= x < png.data@.len() ==> png.data@[x] < num_colors,
        ensures
            data@.len() == num_colors * num_colors,
            forall|a: int, b: int|
                0 <= a < num_colors && 0 <= b < num_colors ==> data@[#[trigger] cell(num_colors as int, a, b)]
                    == co_occurrence(image_lines(png.ihdr.spec_layout(), png.data@), a, b),
    {
        let ghost n = num_colors as int;
        assert(num_colors * num_colors <= 65536) by (nonlinear_arith)
            requires
                1 <= num_colors <= 256,
        ;
        let nn = num_colors * num_colors;
        let mut data: Vec<u32> = Vec::new();
        let mut z: usize = 0;
        while z < nn
            invariant
                z <= nn,
                data@.len() == z,
                forall|c: int| 0 <= c < z ==> data@[c] == 0,
            decreases nn - z,
        {
            data.push(0);
            z += 1;
        }
        let lines = png.scan_lines(false);
        let ghost ls = image_lines(png.ihdr.spec_layout(), png.data@);
        proof {
            lemma_line_bytes(*png, n);
            assert(lines_data(lines@) =~= ls);
        }
        let ghost total = png.data@.len() as int;
        let ghost mut steps: int = 0;
        let mut k: usize = 0;
        assert(ls.take(0) =~= Seq::<Seq<u8>>::empty());
        assert(concat(Seq::<Seq<u8>>::empty()) =~= Seq::<u8>::empty());
        assert forall|a: int, b: int| 0 <= a < n && 0 <= b < n implies data@[#[trigger] cell(n, a, b)] == pair_count(
            ls,
            0,
            0,
            a,
            b,
        ) by {
            lemma_cell(n, a, b);
        }
        while k < lines.len()
            invariant
                n == num_colors,
                1 <= n <= 256,
                nn == n * n,
                data@.len() == nn,
                lines_data(lines@) == ls,
                ls.len() == lines@.len(),
                concat(ls).len() == total,
                4 * total <= u32::MAX,
                forall|k2: int, i: int| 0 <= k2 < ls.len() && 0 <= i < ls[k2].len() ==> #[trigger] ls[k2][i] < n,
                k <= lines@.len(),
                steps == concat(ls.take(k as int)).len(),
                forall|a: int, b: int|
                    0 <= a < n && 0 <= b < n ==> data@[#[trigger] cell(n, a, b)] == pair_count(ls, k as nat, 0, a, b),
                forall|c: int| 0 <= c < nn ==> data@[c] <= 2 * steps,
            decreases lines@.len() - k,
        {
            proof {
                lemma_concat_take(ls, k as int);
            }
            let line = &lines[k].data;
            assert(line@ == ls[k as int]);
            let mut i: usize = 0;
            while i < line.len()
                invariant
                    n == num_colors,
                    1 <= n <= 256,
                    nn == n * n,
                    data@.len() == nn,
                    lines_data(lines@) == ls,
                    ls.len() == lines@.len(),
                    4 * total <= u32::MAX,
                    forall|k2: int, i2: int| 0 <= k2 < ls.len() && 0 <= i2 < ls[k2].len() ==> #[trigger] ls[k2][i2] < n,
                    k < lines@.len(),
                    line@ == ls[k as int],
                    i <= line@.len(),
                    steps + line@.len() <= total,
                    forall|a: int, b: int|
                        0 <= a < n && 0 <= b < n ==> data@[#[trigger] cell(n, a, b)] == pair_count(ls, k as nat, i as int, a, b),
                    forall|c: int| 0 <= c < nn ==> data@[c] <= 2 * (steps + i),
                decreases line@.len() - i,
            {
                let val = line[i] as usize;
                assert(val < n);
                let ghost before = data@;
                if i >= 1 {
                    let pv = line[i - 1] as usize;
                    assert(pv < n);
                    proof {
                        lemma_cell(n, pv as int, val as int);
                    }
                    let c = pv * num_colors + val;
                    data.set(c, data[c] + 1);
                }
                let ghost mid = data@;
                if k >= 1 && i < lines[k - 1].data.len() {
                    assert(lines[k - 1].data@ == ls[k - 1]);
                    let pv = lines[k - 1].data[i] as usize;
                    assert(pv < n);
                    proof {
                        lemma_cell(n, pv as int, val as int);
                    }
                    let c = pv * num_colors + val;
                    data.set(c, data[c] + 1);
                }
                proof {
                    assert forall|a: int, b: int| 0 <= a < n && 0 <= b < n implies data@[#[trigger] cell(n, a, b)] == pair_count(
                        ls,
                        k as nat,
                        i + 1,
                        a,
                        b,
                    ) by {
                        lemma_cell(n, a, b);
                        assert(before[cell(n, a, b)] == pair_count(ls, k as nat, i as int, a, b));
                    }
                }
                i += 1;
            }
            proof {
                assert(ls.take(k + 1) =~= ls.take(k as int).push(ls[k as int]));
                lemma_concat_push(ls.take(k as int), ls[k as int]);
                steps = steps + line@.len();
                assert forall|a: int, b: int| 0 <= a < n && 0 <= b < n implies data@[#[trigger] cell(n, a, b)] == pair_count(
                    ls,
                    (k + 1) as nat,
                    0,
                    a,
                    b,
                ) by {
                    assert(pair_count(ls, (k + 1) as nat, 0, a, b) == pair_count(ls, k as nat, ls[k as int].len() as int, a, b));
                }
            }
            k += 1;
        }
        // Make the matrix symmetrical - this is faster to do afterward than maintaining symmetry during counting
        assert(ls.take(ls.len() as int) =~= ls);
        let ghost counted = data@;
        let mut i: usize = 0;
        while i < num_colors
            invariant
                n == num_colors,
                1 <= n <= 256,
                nn == n * n,
                data@.len() == nn,
                counted.len() == nn,
                4 * total <= u32::MAX,
                forall|c: int| 0 <= c < nn ==> counted[c] <= 2 * total,
                i <= n,
                forall|a: int, b: int|
                    0 <= a < n && 0 <= b < n ==> data@[#[trigger] cell(n, a, b)] == if a < i && b < i {
                        counted[cell(n, a, b)] + counted[cell(n, b, a)]
                    } else {
                        counted[cell(n, a, b)] as int
                    },
            decreases n - i,
        {
            assert(i * num_colors <= 65536) by (nonlinear_arith)
                requires
                    i < num_colors <= 256,
            ;
            let row_start = i * num_colors;
            let mut j: usize = 0;
            while j <= i
                invariant
                    n == num_colors,
                    1 <= n <= 256,
                    nn == n * n,
                    data@.len() == nn,
                    counted.len() == nn,
                    4 * total <= u32::MAX,
                    forall|c: int| 0 <= c < nn ==> counted[c] <= 2 * total,
                    i < n,
                    row_start == i * n,
                    j <= i + 1,
                    forall|a: int, b: int|
                        0 <= a < n && 0 <= b < n ==> data@[#[trigger] cell(n, a, b)] == if (a < i && b < i) || (a == i && b
                            < j) || (b == i && a < j) {
                            counted[cell(n, a, b)] + counted[cell(n, b, a)]
                        } else {
                            counted[cell(n, a, b)] as int
                        },
                decreases i + 1 - j,
            {
                proof {
                    lemma_cell(n, i as int, j as int);
                    lemma_cell(n, j as int, i as int);
                }
                let opposite = j * num_colors + i;
                let here = row_start + j;
                assert(here == cell(n, i as int, j as int));
                assert(opposite == cell(n, j as int, i as int));
                let ghost before = data@;
                let v = data[here] + data[opposite];
                data.set(here, v);
                data.set(opposite, v);
                proof {
                    assert forall|a: int, b: int| 0 <= a < n && 0 <= b < n implies data@[#[trigger] cell(n, a, b)] == if (a < i
                        && b < i) || (a == i && b < j + 1) || (b == i && a < j + 1) {
                        counted[cell(n, a, b)] + counted[cell(n, b, a)]
                    } else {
                        counted[cell(n, a, b)] as int
                    } by {
                        lemma_cell(n, a, b);
                        assert(before[cell(n, a, b)] == if (a < i && b < i) || (a == i && b < j) || (b == i && a < j) {
                            counted[cell(n, a, b)] + counted[cell(n, b, a)]
                        } else {
                            counted[cell(n, a, b)] as int
                        });
                    }
                }
                j += 1;
            }
            i += 1;
        }
        data
    }
}

/// The first position from `i` on whose element has a key above `k` (the
/// length when there is none).
pub open spec fn first_above<A>(s: Seq<A>, key: spec_fn(A) -> int, k: int, i: int) -> int
    decreases s.len() - i,
{
    if i >= s.len() {
        s.len() as int
    } else if key(s[i]) > k {
        i
    } else {
        first_above(s, key, k, i + 1)
    }
}

/// The elements sorted by ascending key, elements with equal keys in their
/// original order (a stable sort).
pub open spec fn stable_sorted<A>(s: Seq<A>, key: spec_fn(A) -> int) -> Seq<A>
    decreases s.len(),
{
    if s.len() == 0 {
        Seq::empty()
    } else {
        let t = stable_sorted(s.drop_last(), key);
        t.insert(first_above(t, key, key(s.last()), 0), s.last())
    }
}

proof fn lemma_first_above_bounds<A>(s: Seq<A>, key: spec_fn(A) -> int, k: int, i: int)
    requires
        0 <= i <= s.len(),
    ensures
        i <= first_above(s, key, k, i) <= s.len(),
        forall|j: int| i <= j < first_above(s, key, k, i) ==> key(#[trigger] s[j]) <= k,
        first_above(s, key, k, i) < s.len() ==> key(s[first_above(s, key, k, i)]) > k,
    decreases s.len() - i,
{
    if i < s.len() && key(s[i]) <= k {
        lemma_first_above_bounds(s, key, k, i + 1);
    }
}

/// A stable sort leaves the keys in ascending order.
pub proof fn lemma_stable_sorted_ascending<A>(s: Seq<A>, key: spec_fn(A) -> int)
    ensures
        stable_sorted(s, key).len() == s.len(),
        forall|i: int, j: int|
            0 <= i < j < s.len() ==> key(#[trigger] stable_sorted(s, key)[i]) <= key(#[trigger] stable_sorted(s, key)[j]),
    decreases s.len(),
{
    if s.len() > 0 {
        let t = stable_sorted(s.drop_last(), key);
        lemma_stable_sorted_ascending(s.drop_last(), key);
        let k = key(s.last());
        let p = first_above(t, key, k, 0);
        lemma_first_above_bounds(t, key, k, 0);
        let u = t.insert(p, s.last());
        assert(u == stable_sorted(s, key));
        assert forall|i: int, j: int| 0 <= i < j < u.len() implies key(#[trigger] u[i]) <= key(#[trigger] u[j]) by {
            if j < p {
                assert(u[i] == t[i] && u[j] == t[j]);
            } else if j == p {
                assert(u[i] == t[i]);
            } else if i < p {
                assert(u[i] == t[i] && u[j] == t[j - 1]);
                assert(key(t[p]) > k);
                if j - 1 > p {
                    assert(key(t[p]) <= key(t[j - 1]));
                }
            } else if i == p {
                assert(u[j] == t[j - 1]);
                assert(key(t[p]) > k);
                if j - 1 > p {
                    assert(key(t[p]) <= key(t[j - 1]));
                }
            } else {
                assert(u[i] == t[i - 1] && u[j] == t[j - 1]);
            }
        }
    }
}

/// The key by which edges are sorted: heaviest first.
pub open spec fn edge_key(e: (u8, u8, u32)) -> int {
    -(e.2 as int)
}

/// The key by which `sort_edges_by_weight` orders the edges: it falls as the
/// weight rises.
fn edge_sort_key(e: &(u8, u8, u32)) -> (k: u32)
    ensures
        k == u32::MAX - e.2,
{
    u32::MAX - e.2
}

/// `slice::sort_by_key` on the edges, by a key that falls as the weight
/// rises: std documents the sort as stable and ascending by key, so the
/// result is the edges in descending order of weight, edges of equal weight
/// in their original order.
#[verifier::external_body]
fn sort_edges_by_weight(edges: &mut Vec<(u8, u8, u32)>)
    ensures
        final(edges)@ == stable_sorted(old(edges)@, |e: (u8, u8, u32)| edge_key(e)),
{
    edges.sort_by_key(|e| edge_sort_key(e));
}

/// The edges of the rows `0..i` of the matrix, row by row: each column `j`
/// below the row `r` with a positive count gives the edge `(j, r, count)`.
pub open spec fn raw_edges(n: int, data: Seq<u32>, i: int) -> Seq<(u8, u8, u32)>
    decreases i,
{
    if i <= 0 {
        Seq::empty()
    } else {
        raw_edges(n, data, i - 1) + row_edges(n, data, i - 1, i - 1)
    }
}

/// The edges of row `r` among the columns `0..j`.
pub open spec fn row_edges(n: int, data: Seq<u32>, r: int, j: int) -> Seq<(u8, u8, u32)>
    decreases j,
{
    if j <= 0 {
        Seq::empty()
    } else if data[cell(n, r, j - 1)] > 0 {
        row_edges(n, data, r, j - 1).push(((j - 1) as u8, r as u8, data[cell(n, r, j - 1)]))
    } else {
        row_edges(n, data, r, j - 1)
    }
}

proof fn lemma_row_edges_some(n: int, data: Seq<u32>, r: int, j: int, c: int)
    requires
        0 <= c < j,
        data[cell(n, r, c)] > 0,
    ensures
        row_edges(n, data, r, j).len() > 0,
    decreases j,
{
    if c < j - 1 {
        lemma_row_edges_some(n, data, r, j - 1, c);
    }
}

proof fn lemma_raw_edges_some(n: int, data: Seq<u32>, i: int, r: int, c: int)
    requires
        0 <= c < r < i,
        data[cell(n, r, c)] > 0,
    ensures
        raw_edges(n, data, i).len() > 0,
    decreases i,
{
    if r < i - 1 {
        lemma_raw_edges_some(n, data, i - 1, r, c);
    } else {
        lemma_row_edges_some(n, data, r, r, c);
    }
}

impl CoOccurrenceMatrix {
    /// Calculate edge list sorted by weight
    fn weighted_edges(num_colors: usize, data: &Vec<u32>) -> (r: Vec<(u8, u8, u32)>)
        requires
            1 <= num_colors <= 256,
            data@.len() == num_colors * num_colors,
        ensures
            r@ == stable_sorted(raw_edges(num_colors as int, data@, num_colors as int), |e: (u8, u8, u32)| edge_key(e)),
            forall|k: int| 0 <= k < r@.len() ==> edge_ok(#[trigger] r@[k], num_colors as int),
    {
        let ghost n = num_colors as int;
        let mut edges: Vec<(u8, u8, u32)> = Vec::new();
        let mut i: usize = 0;
        while i < num_colors
            invariant
                n == num_colors,
                1 <= n <= 256,
                data@.len() == n * n,
                i <= n,
                edges@ == raw_edges(n, data@, i as int),
            decreases n - i,
        {
            let ghost base = edges@;
            let mut j: usize = 0;
            while j < i
                invariant
                    n == num_colors,
                    1 <= n <= 256,
                    data@.len() == n * n,
                    i < n,
                    j <= i,
                    base == raw_edges(n, data@, i as int),
                    edges@ == base + row_edges(n, data@, i as int, j as int),
                decreases i - j,
            {
                proof {
                    lemma_cell(n, i as int, j as int);
                    lemma_row_range(n, i as int);
                }
                let val = data[i * num_colors + j];
                // For performance, skip zero-weight edges since they aren't really edges
                if val > 0 {
                    edges.push((j as u8, i as u8, val));
                    assert(edges@ =~= base + row_edges(n, data@, i as int, j + 1));
                }
                j += 1;
            }
            i += 1;
        }
        let ghost raw = edges@;
        sort_edges_by_weight(&mut edges);
        proof {
            lemma_raw_edges_ok(n, data@, n);
            lemma_sorted_keeps(raw, |e: (u8, u8, u32)| edge_key(e), |e: (u8, u8, u32)| edge_ok(e, n));
        }
        edges
    }

    /// Get a row of the matrix
    fn row(&self, row: usize) -> (r: &[u32])
        requires
            self.inv(),
            row < self.num_colors,
        ensures
            r@ == self.data@.subrange(cell(self.num_colors as int, row as int, 0), cell(self.num_colors as int, row as int, 0) + self.num_colors),
    {
        proof {
            lemma_row_range(self.num_colors as int, row as int);
        }
        let start = row * self.num_colors;
        &self.data[start..(start + self.num_colors)]
    }

    /// Well-formedness: as many colors as the matrix has rows and columns,
    /// at most 256 of them.
    pub closed spec fn inv(&self) -> bool {
        &&& 1 <= self.num_colors <= 256
        &&& self.data@.len() == self.num_colors * self.num_colors
        &&& forall|k: int| 0 <= k < self.weighted_edges@.len() ==> edge_ok(#[trigger] self.weighted_edges@[k], self.num_colors as int)
        &&& forall|a: int, b: int|
            0 <= a < self.num_colors && 0 <= b < self.num_colors ==> #[trigger] self.data@[cell(self.num_colors as int, a, b)]
                == self.data@[cell(self.num_colors as int, b, a)]
    }

    /// The sum of row `r` of the matrix over the columns `0..j`.
    pub closed spec fn row_sum(&self, r: int, j: int) -> int
        decreases j,
    {
        if j <= 0 {
            0
        } else {
            self.row_sum(r, j - 1) + self.data@[cell(self.num_colors as int, r, j - 1)]
        }
    }

    /// The first row whose sum is the largest, with that sum, among the rows
    /// `0..i` (row 0 with sum 0 while no row has a positive sum).
    pub closed spec fn best_row(&self, i: int) -> (int, int)
        decreases i,
    {
        if i <= 0 {
            (0, 0)
        } else {
            let (b, v) = self.best_row(i - 1);
            let sum = self.row_sum(i - 1, self.num_colors as int);
            if sum > v {
                (i - 1, sum)
            } else {
                (b, v)
            }
        }
    }

    /// Find the most popular color in the matrix, along with its count: the
    /// first row with the largest sum, and a quarter of that sum (each color is
    /// counted about four times)
    fn most_popular_color(&self) -> (r: (usize, u64))
        requires
            self.inv(),
        ensures
            r.0 == self.best_row(self.num_colors as int).0,
            r.1 == self.best_row(self.num_colors as int).1 / 4,
    {
        let n = self.num_colors;
        let mut best: (usize, u64) = (0, 0);
        let mut i: usize = 0;
        while i < n
            invariant
                self.inv(),
                n == self.num_colors,
                i <= n,
                best.0 == self.best_row(i as int).0,
                best.1 == self.best_row(i as int).1,
                best.1 <= i * n * 0x1_0000_0000,
            decreases n - i,
        {
            let row = self.row(i);
            proof {
                lemma_row_range(n as int, i as int);
            }
            let mut sum: u64 = 0;
            let mut j: usize = 0;
            while j < n
                invariant
                    self.inv(),
                    n == self.num_colors,
                    i < n,
                    j <= n,
                    row@ == self.data@.subrange(cell(n as int, i as int, 0), cell(n as int, i as int, 0) + n),
                    cell(n as int, i as int, 0) + n <= self.data@.len(),
                    0 <= cell(n as int, i as int, 0),
                    sum == self.row_sum(i as int, j as int),
                    sum <= j * 0x1_0000_0000,
                decreases n - j,
            {
                proof {
                    lemma_cell(n as int, i as int, j as int);
                }
                assert(cell(n as int, i as int, j as int) == cell(n as int, i as int, 0) + j);
                assert(row@[j as int] == self.data@[cell(n as int, i as int, j as int)]);
                sum = sum + row[j] as u64;
                j += 1;
            }
            if sum > best.1 {
                best = (i, sum);
            }
            assert(best.1 <= (i + 1) * n * 0x1_0000_0000) by (nonlinear_arith)
                requires
                    best.1 <= i * n * 0x1_0000_0000 || best.1 <= n * 0x1_0000_0000,
                    n >= 1,
            ;
            i += 1;
        }
        // Each color is counted 4 times in the matrix, so divide to get the actual count
        // This is not 100% accurate for colors on the edge of the image, but it's close enough for our purposes
        (best.0, best.1 / 4)
    }
}

/// The number of colors of a co-occurrence matrix for this image: the size of
/// the palette of an 8-bit indexed image with more than two colors.
pub open spec fn matrix_colors(png: PngImage) -> Option<int> {
    match png.ihdr.color_type {
        ColorType::Indexed { palette } => if png.ihdr.bit_depth == BitDepth::Eight && palette@.len() > 2 {
            Some(palette@.len() as int)
        } else {
            None
        },
        _ => None,
    }
}

/// Whether every byte of the image data is an index into a palette of `n`
/// colors, and the image is small enough for 32-bit counts.
pub open spec fn indices_fit(png: PngImage, n: int) -> bool {
    &&& n <= 256
    &&& 4 * png.data@.len() <= u32::MAX
    &&& forall|x: int| 0 <= x < png.data@.len() ==> png.data@[x] < n
}

impl CoOccurrenceMatrix {
    /// The edges of the matrix, heaviest first.
    pub closed spec fn spec_edges(&self) -> Seq<(u8, u8, u32)> {
        self.weighted_edges@
    }

    /// Construct a co-occurrence matrix from the given image, or return None if it is not supported.
    ///
    /// Pre-condition: The palette must match the image data, with no unused or missing entries.
    /// I.e., the image must have been processed with `reduced_palette` first.
    pub fn from(png: &PngImage) -> (r: Option<Self>)
        requires
            png.wf(),
            matrix_colors(*png) matches Some(n) ==> indices_fit(*png, n) && all_used(*png, n),
        ensures
            r is Some <==> matrix_colors(*png) is Some,
            r matches Some(m) ==> {
                let n = m.spec_num_colors();
                &&& m.inv()
                &&& matrix_colors(*png) == Some(n)
                &&& forall|a: int, b: int|
                    0 <= a < n && 0 <= b < n ==> m.spec_data()[#[trigger] cell(n, a, b)] == co_occurrence(
                        image_lines(png.ihdr.spec_layout(), png.data@),
                        a,
                        b,
                    )
                &&& m.spec_edges() == stable_sorted(raw_edges(n, m.spec_data(), n), |e: (u8, u8, u32)| edge_key(e))
                &&& forall|i: int, j: int|
                    0 <= i < j < m.spec_edges().len() ==> (#[trigger] m.spec_edges()[i]).2 >= (#[trigger] m.spec_edges()[j]).2
                &&& m.connected()
            },
    {
        if png.ihdr.bit_depth != BitDepth::Eight {
            return None;
        }
        let num_colors = match &png.ihdr.color_type {
            // Images with only two colors will remain unchanged from previous luma sort
            ColorType::Indexed { palette } => if palette.len() > 2 {
                palette.len()
            } else {
                return None;
            },
            _ => return None,
        };
        let data = Self::build(num_colors, png);
        let weighted_edges = Self::weighted_edges(num_colors, &data);
        let ghost n = num_colors as int;
        assert forall|a: int, b: int| 0 <= a < n && 0 <= b < n implies #[trigger] data@[cell(n, a, b)] == data@[cell(n, b, a)] by {
            let lines = image_lines(png.ihdr.spec_layout(), png.data@);
            assert(data@[cell(n, a, b)] == co_occurrence(lines, a, b));
            assert(data@[cell(n, b, a)] == co_occurrence(lines, b, a));
        }
        let ghost m = CoOccurrenceMatrix { num_colors, data, weighted_edges };
        proof {
            let lines = image_lines(png.ihdr.spec_layout(), png.data@);
            assert forall|s: Set<int>| #[trigger] splits(s, m.spec_num_colors()) implies m.crosses(s) by {
                lemma_image_connected(*png, n, s);
                let (a, b) = choose|a: int, b: int|
                    0 <= a < n && 0 <= b < n && s.contains(a) && !s.contains(b) && co_occurrence(lines, a, b) > 0;
                assert(m.at(a, b) > 0);
            }
            let s0 = Set::new(|x: int| x == 0);
            assert(splits(s0, n)) by {
                assert(s0.contains(0));
                assert(!s0.contains(1));
            }
            lemma_image_connected(*png, n, s0);
            let (a, b) = choose|a: int, b: int|
                0 <= a < n && 0 <= b < n && s0.contains(a) && !s0.contains(b) && co_occurrence(lines, a, b) > 0;
            assert(data@[cell(n, b, 0)] == co_occurrence(lines, b, 0));
            assert(co_occurrence(lines, b, 0) == co_occurrence(lines, 0, b));
            lemma_raw_edges_some(n, data@, n, b, 0);
            let key = |e: (u8, u8, u32)| edge_key(e);
            lemma_stable_sorted_ascending(raw_edges(n, data@, n), key);
            assert forall|i: int, j: int| 0 <= i < j < weighted_edges@.len() implies (#[trigger] weighted_edges@[i]).2
                >= (#[trigger] weighted_edges@[j]).2 by {
                assert(key(weighted_edges@[i]) <= key(weighted_edges@[j]));
            }
        }
        Some(CoOccurrenceMatrix { num_colors, data, weighted_edges })
    }
}

/// Whether `r` orders the colors `0..n`: each of them once.
pub open spec fn is_permutation(r: Seq<usize>, n: int) -> bool {
    &&& r.len() == n
    &&& forall|i: int| 0 <= i < n ==> #[trigger] r[i] < n
    &&& forall|i: int, j: int| 0 <= i < j < n ==> r[i] != r[j]
    &&& forall|b: int| 0 <= b < n ==> #[trigger] has_value(r, b)
}

/// Whether some position of `r` holds `b`.
pub open spec fn has_value(r: Seq<usize>, b: int) -> bool {
    exists|i: int| 0 <= i < r.len() && r[i] == b
}

/// The last position among `0..k` that holds `b` (0 when none does).
pub open spec fn last_index(r: Seq<usize>, b: int, k: int) -> int
    decreases k,
{
    if k <= 0 {
        0
    } else if r[k - 1] == b {
        k - 1
    } else {
        last_index(r, b, k - 1)
    }
}

/// The palette in the order `r` gives.
pub open spec fn reordered_palette(p: Seq<Rgba8>, r: Seq<usize>) -> Seq<Rgba8> {
    Seq::new(r.len(), |i: int| p[r[i] as int])
}

/// The image data with each index replaced by its new position.
pub open spec fn reindexed(data: Seq<u8>, r: Seq<usize>) -> Seq<u8> {
    Seq::new(data.len(), |k: int| last_index(r, data[k] as int, r.len() as int) as u8)
}

/// Whether `r` keeps every color where it is.
pub open spec fn is_identity(r: Seq<usize>) -> bool {
    forall|i: int| 0 <= i < r.len() ==> r[i] == i
}

proof fn lemma_last_index_unique(r: Seq<usize>, b: int, k: int, i: int)
    requires
        0 <= i < k <= r.len(),
        r[i] == b,
        forall|x: int, y: int| 0 <= x < y < r.len() ==> r[x] != r[y],
    ensures
        last_index(r, b, k) == i,
    decreases k,
{
    if k - 1 != i {
        assert(r[k - 1] != r[i]);
        lemma_last_index_unique(r, b, k - 1, i);
    }
}

/// Reordering the palette and reindexing the image data with it keeps the
/// color of every pixel.
pub proof fn lemma_reorder_keeps_colors(p: Seq<Rgba8>, r: Seq<usize>, data: Seq<u8>)
    requires
        p.len() <= 256,
        is_permutation(r, p.len() as int),
        forall|k: int| 0 <= k < data.len() ==> data[k] < p.len(),
    ensures
        reindexed(data, r).len() == data.len(),
        forall|k: int|
            0 <= k < data.len() ==> reordered_palette(p, r)[#[trigger] reindexed(data, r)[k] as int] == p[data[k] as int],
{
    let n = p.len() as int;
    assert forall|k: int| 0 <= k < data.len() implies reordered_palette(p, r)[#[trigger] reindexed(data, r)[k] as int]
        == p[data[k] as int] by {
        let b = data[k] as int;
        assert(has_value(r, b));
        let i = choose|i: int| 0 <= i < r.len() && r[i] == b;
        lemma_last_index_unique(r, b, n, i);
        assert(reindexed(data, r)[k] as int == i);
    }
}

/// Whether `img` is `png` with its palette reordered by `r` and its data
/// reindexed to match.
pub open spec fn is_reordered(img: PngImage, png: PngImage, r: Seq<usize>) -> bool {
    &&& img.ihdr.width == png.ihdr.width
    &&& img.ihdr.height == png.ihdr.height
    &&& img.ihdr.bit_depth == png.ihdr.bit_depth
    &&& img.ihdr.interlaced == png.ihdr.interlaced
    &&& img.data@ == reindexed(png.data@, r)
    &&& match (img.ihdr.color_type, png.ihdr.color_type) {
        (ColorType::Indexed { palette: np }, ColorType::Indexed { palette }) => np@ == reordered_palette(palette@, r),
        _ => false,
    }
}

/// What reordering the palette of `png` by `r` gives: nothing when the image
/// has no palette or `r` keeps every color in place, else the reordered image.
pub open spec fn reorder_outcome(res: Option<PngImage>, png: PngImage, r: Seq<usize>) -> bool {
    match png.ihdr.color_type {
        ColorType::Indexed { .. } => if is_identity(r) {
            res is None
        } else {
            res matches Some(img) && is_reordered(img, png, r)
        },
        _ => res is None,
    }
}

/// Whether `png` has a palette of `n` colors, if it has one at all.
pub open spec fn palette_fits(png: PngImage, n: int) -> bool {
    png.ihdr.color_type matches ColorType::Indexed { palette } ==> palette@.len() == n
}

/// Apply the palette reordering to the image data
fn apply_palette_reorder(png: &PngImage, remapping: &Vec<usize>) -> (r: Option<PngImage>)
    requires
        png.ihdr.color_type matches ColorType::Indexed { palette } ==> (remapping@.len() == palette@.len()
            && palette@.len() <= 256 && forall|i: int| 0 <= i < remapping@.len() ==> #[trigger] remapping@[i]
            < palette@.len()),
    ensures
        reorder_outcome(r, *png, remapping@),
{
    let palette = match &png.ihdr.color_type {
        ColorType::Indexed { palette } => palette,
        _ => return None,
    };
    // Check if anything changed
    let mut same = true;
    let mut i: usize = 0;
    while i < remapping.len()
        invariant
            i <= remapping@.len(),
            same == (forall|x: int| 0 <= x < i ==> remapping@[x] == x),
        decreases remapping@.len() - i,
    {
        if remapping[i] != i {
            same = false;
        }
        i += 1;
    }
    if same {
        return None;
    }
    // Construct the palette and byte maps and convert the data
    let mut new_palette: Vec<Rgba8> = Vec::new();
    let mut byte_map: Vec<u8> = Vec::new();
    let mut z: usize = 0;
    while z < 256
        invariant
            z <= 256,
            byte_map@.len() == z,
            forall|x: int| 0 <= x < z ==> byte_map@[x] == 0,
        decreases 256 - z,
    {
        byte_map.push(0);
        z += 1;
    }
    let mut i: usize = 0;
    while i < remapping.len()
        invariant
            remapping@.len() == palette@.len(),
            palette@.len() <= 256,
            forall|x: int| 0 <= x < remapping@.len() ==> #[trigger] remapping@[x] < palette@.len(),
            i <= remapping@.len(),
            byte_map@.len() == 256,
            forall|b: int| 0 <= b < 256 ==> byte_map@[b] == last_index(remapping@, b, i as int),
            new_palette@ =~= reordered_palette(palette@, remapping@.take(i as int)),
        decreases remapping@.len() - i,
    {
        let v = remapping[i];
        new_palette.push(palette[v]);
        byte_map.set(v, i as u8);
        i += 1;
    }
    assert(remapping@.take(remapping@.len() as int) =~= remapping@);
    let mut data: Vec<u8> = Vec::new();
    let mut k: usize = 0;
    while k < png.data.len()
        invariant
            k <= png.data@.len(),
            byte_map@.len() == 256,
            forall|b: int| 0 <= b < 256 ==> byte_map@[b] == last_index(remapping@, b, remapping@.len() as int),
            data@ =~= reindexed(png.data@.take(k as int), remapping@),
        decreases png.data@.len() - k,
    {
        data.push(byte_map[png.data[k] as usize]);
        k += 1;
    }
    assert(png.data@.take(png.data@.len() as int) =~= png.data@);
    let ihdr = IhdrData {
        width: png.ihdr.width,
        height: png.ihdr.height,
        color_type: ColorType::Indexed { palette: new_palette },
        bit_depth: png.ihdr.bit_depth,
        interlaced: png.ihdr.interlaced,
    };
    Some(PngImage { ihdr, data })
}

/// The first position from `i` on that holds `b` (the length when none does).
pub open spec fn index_from(r: Seq<usize>, b: int, i: int) -> int
    decreases r.len() - i,
{
    if i >= r.len() {
        r.len() as int
    } else if r[i] == b {
        i
    } else {
        index_from(r, b, i + 1)
    }
}

/// The sequence turned so that position `k` comes first.
pub open spec fn rotated_left(s: Seq<usize>, k: int) -> Seq<usize> {
    s.skip(k) + s.take(k)
}

/// The sequence backwards.
pub open spec fn backwards(s: Seq<usize>) -> Seq<usize> {
    Seq::new(s.len(), |i: int| s[s.len() - 1 - i])
}

/// Whether `t` holds the elements of `s` at the positions that `f` maps
/// them to, one to one.
pub open spec fn moved(s: Seq<usize>, t: Seq<usize>, f: spec_fn(int) -> int) -> bool {
    &&& s.len() == t.len()
    &&& forall|i: int| 0 <= i < s.len() ==> 0 <= #[trigger] f(i) < s.len() && t[f(i)] == s[i]
    &&& forall|i: int, j: int| 0 <= i < j < s.len() ==> #[trigger] f(i) != #[trigger] f(j)
}

proof fn lemma_moved_permutation(s: Seq<usize>, t: Seq<usize>, f: spec_fn(int) -> int, n: int)
    requires
        is_permutation(s, n),
        moved(s, t, f),
    ensures
        is_permutation(t, n),
{
    assert forall|j: int| 0 <= j < n implies #[trigger] reaches(f, n, j) by {
        lemma_injective_onto(f, n, j);
    }
    assert forall|j: int| 0 <= j < n implies #[trigger] t[j] < n by {
        assert(reaches(f, n, j));
        let i = choose|i: int| 0 <= i < n && #[trigger] f(i) == j;
        assert(t[f(i)] == s[i]);
    }
    assert forall|a: int, b: int| 0 <= a < b < n implies t[a] != t[b] by {
        assert(reaches(f, n, a));
        assert(reaches(f, n, b));
        let i = choose|i: int| 0 <= i < n && #[trigger] f(i) == a;
        let k = choose|k: int| 0 <= k < n && #[trigger] f(k) == b;
        assert(t[a] == s[i] && t[b] == s[k]);
        assert(i != k);
        if i < k {
            assert(s[i] != s[k]);
        } else {
            assert(s[k] != s[i]);
        }
    }
    assert forall|b: int| 0 <= b < n implies #[trigger] has_value(t, b) by {
        assert(has_value(s, b));
        let i = choose|i: int| 0 <= i < s.len() && s[i] == b;
        assert(t[f(i)] == b);
    }
}

/// Whether some position of `0..n` maps to `j`.
pub open spec fn reaches(f: spec_fn(int) -> int, n: int, j: int) -> bool {
    exists|i: int| 0 <= i < n && #[trigger] f(i) == j
}

/// A one-to-one map of `0..n` into `0..n` reaches every position.
proof fn lemma_injective_onto(f: spec_fn(int) -> int, n: int, j: int)
    requires
        0 <= j < n,
        forall|i: int| 0 <= i < n ==> 0 <= #[trigger] f(i) < n,
        forall|i: int, k: int| 0 <= i < k < n ==> #[trigger] f(i) != #[trigger] f(k),
    ensures
        reaches(f, n, j),
{
    let dom = Set::new(|i: int| 0 <= i < n);
    let img = dom.map(f);
    let full = Set::new(|i: int| 0 <= i < n);
    vstd::set_lib::lemma_int_range(0, n);
    assert(dom =~= vstd::set_lib::set_int_range(0, n));
    assert(dom.len() == n);
    assert(vstd::relations::injective_on(f, dom)) by {
        assert forall|a: int, b: int| dom.contains(a) && dom.contains(b) && #[trigger] f(a) == #[trigger] f(b) implies a == b by {
            if a < b {
                assert(f(a) != f(b));
            } else if b < a {
                assert(f(b) != f(a));
            }
        }
    }
    vstd::set_lib::lemma_map_size(dom, img, f);
    assert(img.subset_of(full));
    assert(full =~= vstd::set_lib::set_int_range(0, n));
    if !img.contains(j) {
        let smaller = full.remove(j);
        assert(img.subset_of(smaller));
        vstd::set_lib::lemma_len_subset(img, smaller);
        assert(smaller.len() == n - 1);
        assert(false);
    }
    let i = choose|i: int| dom.contains(i) && f(i) == j;
}

proof fn lemma_rotate_permutation(s: Seq<usize>, k: int, n: int)
    requires
        is_permutation(s, n),
        0 <= k <= n,
    ensures
        is_permutation(rotated_left(s, k), n),
{
    let t = rotated_left(s, k);
    let f = |i: int| if i >= k { i - k } else { i + n - k };
    assert forall|i: int| 0 <= i < s.len() implies 0 <= #[trigger] f(i) < s.len() && t[f(i)] == s[i] by {}
    lemma_moved_permutation(s, t, f, n);
}

proof fn lemma_backwards_permutation(s: Seq<usize>, n: int)
    requires
        is_permutation(s, n),
    ensures
        is_permutation(backwards(s), n),
{
    let t = backwards(s);
    let f = |i: int| n - 1 - i;
    lemma_moved_permutation(s, t, f, n);
}

/// The sequence turned so that position `k` comes first.
fn rotate_left_vec(v: &Vec<usize>, k: usize) -> (r: Vec<usize>)
    requires
        k <= v@.len(),
    ensures
        r@ == rotated_left(v@, k as int),
{
    let mut r: Vec<usize> = Vec::new();
    let mut i = k;
    while i < v.len()
        invariant
            k <= i <= v@.len(),
            r@ == v@.subrange(k as int, i as int),
        decreases v@.len() - i,
    {
        r.push(v[i]);
        i += 1;
        assert(r@ =~= v@.subrange(k as int, i as int));
    }
    let mut i: usize = 0;
    while i < k
        invariant
            k <= v@.len(),
            i <= k,
            r@ == v@.skip(k as int) + v@.take(i as int),
        decreases k - i,
    {
        r.push(v[i]);
        i += 1;
        assert(r@ =~= v@.skip(k as int) + v@.take(i as int));
    }
    r
}

/// The sequence backwards.
fn reversed_vec(v: &Vec<usize>) -> (r: Vec<usize>)
    ensures
        r@ == backwards(v@),
{
    let mut r: Vec<usize> = Vec::new();
    let mut i = v.len();
    while i > 0
        invariant
            i <= v@.len(),
            r@ == backwards(v@).take(v@.len() - i),
        decreases i,
    {
        i -= 1;
        r.push(v[i]);
        assert(r@ =~= backwards(v@).take(v@.len() - i));
    }
    assert(backwards(v@).take(v@.len() as int) =~= backwards(v@));
    r
}

/// The first position of `b`.
fn first_position(v: &Vec<usize>, b: usize) -> (r: usize)
    ensures
        r == index_from(v@, b as int, 0),
        r <= v@.len(),
{
    let mut i: usize = 0;
    while i < v.len()
        invariant
            i <= v@.len(),
            index_from(v@, b as int, 0) == index_from(v@, b as int, i as int),
        decreases v@.len() - i,
    {
        if v[i] == b {
            return i;
        }
        i += 1;
    }
    i
}

proof fn lemma_index_from_found(r: Seq<usize>, b: int, i: int)
    requires
        0 <= i <= r.len(),
        exists|j: int| i <= j < r.len() && r[j] == b,
    ensures
        i <= index_from(r, b, i) < r.len(),
        r[index_from(r, b, i)] == b,
    decreases r.len() - i,
{
    if r[i] != b {
        lemma_index_from_found(r, b, i + 1);
    }
}

/// The order after moving the most popular color first: unchanged when it
/// covers less than 15% of the image; else turned so that it comes first,
/// backwards when it stood in the second half.
pub open spec fn popular_first(r: Seq<usize>, color: int, count: int, len: int) -> Seq<usize> {
    if count < len * 3 / 20 {
        r
    } else {
        let f = index_from(r, color, 0);
        if f >= r.len() / 2 {
            rotated_left(backwards(r), r.len() - 1 - f)
        } else {
            rotated_left(r, f)
        }
    }
}

impl CoOccurrenceMatrix {
    /// The most popular color: the first row with the largest sum.
    pub closed spec fn popular_color(&self) -> int {
        self.best_row(self.num_colors as int).0
    }

    /// Its count: a quarter of the sum of its row.
    pub closed spec fn popular_count(&self) -> int {
        self.best_row(self.num_colors as int).1 / 4
    }

    /// Whether the order holds the most popular color, where it matters: when
    /// that color covers at least 15% of an image of `len` pixels.
    pub open spec fn popular_kept(&self, r: Seq<usize>, len: int) -> bool {
        self.popular_count() < len * 3 / 20 || has_value(r, self.popular_color())
    }

    /// The order with the most popular color moved first.
    pub open spec fn popular_first_order(&self, r: Seq<usize>, len: int) -> Seq<usize> {
        popular_first(r, self.popular_color(), self.popular_count(), len)
    }
}

/// Put the most popular color first
fn apply_most_popular_color(png: &PngImage, remapping: &mut Vec<usize>, matrix: &CoOccurrenceMatrix)
    requires
        matrix.inv(),
        old(remapping)@.len() == matrix.spec_num_colors(),
        colors_below(old(remapping)@, matrix.spec_num_colors()),
        4 * png.data@.len() <= u32::MAX,
        matrix.popular_kept(old(remapping)@, png.data@.len() as int),
    ensures
        final(remapping)@ == matrix.popular_first_order(old(remapping)@, png.data@.len() as int),
        final(remapping)@.len() == old(remapping)@.len(),
        colors_below(final(remapping)@, matrix.spec_num_colors()),
        is_permutation(old(remapping)@, matrix.spec_num_colors()) ==> is_permutation(
            final(remapping)@,
            matrix.spec_num_colors(),
        ),
{
    let most_popular = matrix.most_popular_color();
    proof {
        matrix.lemma_best_row_range(matrix.spec_num_colors());
    }
    // If the most popular color is less than 15% of the image, don't use it
    if most_popular.1 < png.data.len() as u64 * 3 / 20 {
        return;
    }
    let ghost r0 = remapping@;
    let ghost m = matrix.spec_num_colors();
    let n = remapping.len();
    proof {
        assert(has_value(r0, most_popular.0 as int));
        lemma_index_from_found(r0, most_popular.0 as int, 0);
    }
    let first_idx = first_position(remapping, most_popular.0);
    // If the index is past halfway, reverse the order so as to minimize the change
    if first_idx >= n / 2 {
        let rev = reversed_vec(remapping);
        *remapping = rotate_left_vec(&rev, n - 1 - first_idx);
        proof {
            if is_permutation(r0, m) {
                lemma_backwards_permutation(r0, n as int);
                lemma_rotate_permutation(backwards(r0), n - 1 - first_idx, n as int);
            }
            assert forall|i: int| 0 <= i < n implies #[trigger] remapping@[i] < m by {
                let k = n - 1 - first_idx;
                if i < n - k {
                    assert(remapping@[i] == backwards(r0)[i + k]);
                } else {
                    assert(remapping@[i] == backwards(r0)[i - (n - k)]);
                }
            }
        }
    } else {
        *remapping = rotate_left_vec(remapping, first_idx);
        proof {
            if is_permutation(r0, m) {
                lemma_rotate_permutation(r0, first_idx as int, n as int);
            }
            assert forall|i: int| 0 <= i < n implies #[trigger] remapping@[i] < m by {
                if i < n - first_idx {
                    assert(remapping@[i] == r0[i + first_idx]);
                } else {
                    assert(remapping@[i] == r0[i - (n - first_idx)]);
                }
            }
        }
    }
}

impl CoOccurrenceMatrix {
    proof fn lemma_best_row_range(&self, i: int)
        requires
            self.inv(),
            0 <= i <= self.num_colors,
        ensures
            0 <= self.best_row(i).0 < self.num_colors,
        decreases i,
    {
        if i > 0 {
            self.lemma_best_row_range(i - 1);
        }
    }
}

/// Whether an edge joins two different colors of `0..n`, the lower first.
pub open spec fn edge_ok(e: (u8, u8, u32), n: int) -> bool {
    e.0 < e.1 < n
}

proof fn lemma_sorted_keeps<A>(s: Seq<A>, key: spec_fn(A) -> int, p: spec_fn(A) -> bool)
    requires
        forall|i: int| 0 <= i < s.len() ==> p(#[trigger] s[i]),
    ensures
        forall|i: int| 0 <= i < stable_sorted(s, key).len() ==> p(#[trigger] stable_sorted(s, key)[i]),
        stable_sorted(s, key).len() == s.len(),
    decreases s.len(),
{
    if s.len() > 0 {
        let s0 = s.drop_last();
        assert forall|i: int| 0 <= i < s0.len() implies p(#[trigger] s0[i]) by {
            assert(s0[i] == s[i]);
        }
        lemma_sorted_keeps(s0, key, p);
        let t = stable_sorted(s0, key);
        lemma_first_above_range(t, key, key(s.last()), 0);
        let r = stable_sorted(s, key);
        assert(p(s.last()));
        assert forall|i: int| 0 <= i < r.len() implies p(#[trigger] r[i]) by {
            let q = first_above(t, key, key(s.last()), 0);
            if i < q {
                assert(r[i] == t[i]);
            } else if i > q {
                assert(r[i] == t[i - 1]);
            }
        }
    }
}

proof fn lemma_first_above_range<A>(s: Seq<A>, key: spec_fn(A) -> int, k: int, i: int)
    requires
        0 <= i <= s.len(),
    ensures
        i <= first_above(s, key, k, i) <= s.len(),
    decreases s.len() - i,
{
    if i < s.len() && key(s[i]) <= k {
        lemma_first_above_range(s, key, k, i + 1);
    }
}

proof fn lemma_raw_edges_ok(n: int, data: Seq<u32>, i: int)
    requires
        0 <= i <= n <= 256,
    ensures
        forall|k: int| 0 <= k < raw_edges(n, data, i).len() ==> edge_ok(#[trigger] raw_edges(n, data, i)[k], n),
    decreases i,
{
    if i > 0 {
        lemma_raw_edges_ok(n, data, i - 1);
        lemma_row_edges_ok(n, data, i - 1, i - 1);
        let a = raw_edges(n, data, i - 1);
        let b = row_edges(n, data, i - 1, i - 1);
        assert forall|k: int| 0 <= k < (a + b).len() implies edge_ok(#[trigger] (a + b)[k], n) by {
            if k >= a.len() {
                assert((a + b)[k] == b[k - a.len()]);
            }
        }
    }
}

proof fn lemma_row_edges_ok(n: int, data: Seq<u32>, r: int, j: int)
    requires
        0 <= j <= r < n <= 256,
    ensures
        forall|k: int| 0 <= k < row_edges(n, data, r, j).len() ==> edge_ok(#[trigger] row_edges(n, data, r, j)[k], n),
    decreases j,
{
    if j > 0 {
        lemma_row_edges_ok(n, data, r, j - 1);
        let prev = row_edges(n, data, r, j - 1);
        let e = ((j - 1) as u8, r as u8, data[cell(n, r, j - 1)]);
        assert(e.0 as int == j - 1 && e.1 as int == r);
        assert(edge_ok(e, n));
        assert forall|k: int| 0 <= k < row_edges(n, data, r, j).len() implies edge_ok(#[trigger] row_edges(n, data, r, j)[k], n) by {
            if data[cell(n, r, j - 1)] > 0 && k == prev.len() {
                assert(row_edges(n, data, r, j)[k] == e);
            } else {
                assert(row_edges(n, data, r, j)[k] == prev[k]);
            }
        }
    }
}

/// The position and entry with the largest sum, the first of them; position
/// 0 and `(0, 0)` while no sum is positive.
pub open spec fn best_of(sums: Seq<(usize, int)>, k: int) -> (int, (usize, int))
    decreases k,
{
    if k <= 0 {
        (0, (0usize, 0))
    } else {
        let (p, b) = best_of(sums, k - 1);
        if sums[k - 1].1 > b.1 {
            (k - 1, sums[k - 1])
        } else {
            (p, b)
        }
    }
}

/// The sums as integers.
pub open spec fn sums_view(v: Seq<(usize, u64)>) -> Seq<(usize, int)> {
    v.map_values(|e: (usize, u64)| (e.0, e.1 as int))
}

/// Where Zeng's technique inserts the next color: first or last.
#[derive(Clone, Copy, Debug)]
pub enum Placement {
    /// At the ends, by the sign of the weighted distance (mzeng)
    Ends,
    /// At the position of least cost (ezeng)
    Cheapest,
}

impl CoOccurrenceMatrix {
    /// The count of row `a`, column `b`.
    pub closed spec fn at(&self, a: int, b: int) -> int {
        self.data@[cell(self.num_colors as int, a, b)] as int
    }

    /// The starting sums: each color but `r0` and `r1`, among the colors
    /// `0..i`, with the sum of its counts with them.
    pub closed spec fn initial_sums(&self, r0: int, r1: int, i: int) -> Seq<(usize, int)>
        decreases i,
    {
        if i <= 0 {
            Seq::empty()
        } else if i - 1 == r0 || i - 1 == r1 {
            self.initial_sums(r0, r1, i - 1)
        } else {
            self.initial_sums(r0, r1, i - 1).push(((i - 1) as usize, self.at(i - 1, r0) + self.at(i - 1, r1)))
        }
    }

    /// The sums after placing color `c`: each grows by its count with `c`.
    pub closed spec fn added_sums(&self, sums: Seq<(usize, int)>, c: int) -> Seq<(usize, int)> {
        sums.map_values(|e: (usize, int)| (e.0, e.1 + self.at(c, e.0 as int)))
    }

    /// The weighted distance that decides on which end color `c` goes, over
    /// the first `k` placed colors.
    pub closed spec fn ends_delta(&self, remap: Seq<usize>, c: int, k: int) -> int
        decreases k,
    {
        if k <= 0 {
            0
        } else {
            self.ends_delta(remap, c, k - 1) + (remap.len() - 1 - 2 * (k - 1)) * self.at(c, remap[k - 1] as int)
        }
    }

    /// The cost of placing color `c` at position `p`: its counts with the
    /// first `k` placed colors, weighted by the distance to them.
    pub closed spec fn new_cost(&self, remap: Seq<usize>, c: int, p: int, k: int) -> int
        decreases k,
    {
        if k <= 0 {
            0
        } else {
            self.new_cost(remap, c, p, k - 1) + self.at(c, remap[k - 1] as int) * (if k - 1 < p {
                p - (k - 1)
            } else {
                k - p
            })
        }
    }

    /// The sum of the counts of the placed color at `p` with the placed
    /// colors at positions `from..to`.
    pub closed spec fn span_sum(&self, remap: Seq<usize>, p: int, from: int, to: int) -> int
        decreases to - from,
    {
        if to <= from {
            0
        } else {
            self.span_sum(remap, p, from, to - 1) + self.at(remap[p] as int, remap[to - 1] as int)
        }
    }

    /// The cost of the pairs of placed colors that an insertion at position
    /// `p` pushes apart.
    pub closed spec fn cross_cost(&self, remap: Seq<usize>, p: int) -> int
        decreases p,
    {
        if p <= 0 {
            0
        } else {
            self.cross_cost(remap, p - 1) + self.span_sum(remap, p - 1, p, remap.len() as int) - self.span_sum(
                remap,
                p - 1,
                0,
                p - 1,
            )
        }
    }

    /// The cheapest position among `0..p` and its cost (the first on ties).
    pub closed spec fn cheapest(&self, remap: Seq<usize>, c: int, p: int) -> (int, int)
        decreases p,
    {
        if p <= 0 {
            (0, i64::MAX as int)
        } else {
            let (bp, bc) = self.cheapest(remap, c, p - 1);
            let total = self.new_cost(remap, c, p - 1, remap.len() as int) + self.cross_cost(remap, p - 1);
            if total < bc {
                (p - 1, total)
            } else {
                (bp, bc)
            }
        }
    }

    /// Where the next color goes.
    pub closed spec fn place(&self, how: Placement, remap: Seq<usize>, c: int) -> int {
        match how {
            Placement::Ends => if self.ends_delta(remap, c, remap.len() as int) > 0 {
                0
            } else {
                remap.len() as int
            },
            Placement::Cheapest => self.cheapest(remap, c, remap.len() + 1int).0,
        }
    }

    /// Zeng's greedy reindexing from a state: the color with the best sum is
    /// placed, the sums grow by its counts, until every color is placed.
    pub closed spec fn zeng_run(
        &self,
        how: Placement,
        remap: Seq<usize>,
        sums: Seq<(usize, int)>,
        best_pos: int,
        best: (usize, int),
    ) -> Seq<usize>
        decreases sums.len(),
    {
        if sums.len() == 0 || !(0 <= best_pos < sums.len()) {
            remap
        } else {
            let c = best.0 as int;
            let remap2 = remap.insert(self.place(how, remap, c), best.0);
            let sums1 = sums.update(best_pos, sums.last()).drop_last();
            let sums2 = self.added_sums(sums1, c);
            let (bp, b) = best_of(sums2, sums2.len() as int);
            self.zeng_run(how, remap2, sums2, bp, b)
        }
    }

    /// The reindexing of Zeng's technique, starting from the heaviest edge.
    pub closed spec fn zeng(&self, how: Placement) -> Seq<usize> {
        let e = self.weighted_edges@[0];
        let sums = self.initial_sums(e.0 as int, e.1 as int, self.num_colors as int);
        let (bp, b) = best_of(sums, sums.len() as int);
        self.zeng_run(how, seq![e.0 as usize, e.1 as usize], sums, bp, b)
    }

    /// Whether the matrix has an edge.
    pub closed spec fn has_edges(&self) -> bool {
        self.weighted_edges@.len() > 0
    }
}

/// Whether every entry is a color of `0..n`.
pub open spec fn colors_below(r: Seq<usize>, n: int) -> bool {
    forall|i: int| 0 <= i < r.len() ==> #[trigger] r[i] < n
}

/// The colors a list of sums is kept for, in order.
pub open spec fn sum_colors(sums: Seq<(usize, int)>) -> Seq<usize> {
    sums.map_values(|e: (usize, int)| e.0)
}

/// Whether `s` holds some color of `0..n` and lacks another.
pub open spec fn splits(s: Set<int>, n: int) -> bool {
    &&& exists|a: int| 0 <= a < n && s.contains(a)
    &&& exists|b: int| 0 <= b < n && !s.contains(b)
}

/// Whether `t` has `n` entries, each a color of `0..n`, and holds every
/// color of `0..n`.
pub open spec fn covers(t: Seq<usize>, n: int) -> bool {
    &&& t.len() == n
    &&& forall|i: int| 0 <= i < t.len() ==> #[trigger] t[i] < n
    &&& forall|b: int| 0 <= b < n ==> #[trigger] has_value(t, b)
}

/// Holding every color of `0..n` in `n` entries, each below `n`, is being a
/// permutation of them.
proof fn lemma_cover_permutation(r: Seq<usize>, n: int)
    requires
        0 <= n <= usize::MAX,
        covers(r, n),
    ensures
        is_permutation(r, n),
{
    let ri = r.map_values(|v: usize| v as int);
    vstd::set_lib::lemma_int_range(0, n);
    assert(ri.to_set() =~= vstd::set_lib::set_int_range(0, n)) by {
        assert forall|x: int| #[trigger] ri.to_set().contains(x) <==> 0 <= x < n by {
            if ri.to_set().contains(x) {
                let k = choose|k: int| 0 <= k < ri.len() && ri[k] == x;
                assert(r[k] < n);
            }
            if 0 <= x < n {
                assert(has_value(r, x));
                let k = choose|k: int| 0 <= k < r.len() && r[k] == x;
                assert(ri[k] == x);
            }
        }
    }
    ri.lemma_no_dup_set_cardinality();
    assert(r.no_duplicates()) by {
        assert forall|p: int, q: int| 0 <= p < r.len() && 0 <= q < r.len() && p != q implies r[p] != r[q] by {
            assert(ri[p] != ri[q]);
        }
    }
    lemma_distinct_cover(r, n);
}

impl CoOccurrenceMatrix {
    /// Whether some color of `s` is adjacent to some color outside it.
    pub open spec fn crosses(&self, s: Set<int>) -> bool {
        exists|a: int, b: int|
            0 <= a < self.spec_num_colors() && 0 <= b < self.spec_num_colors() && s.contains(a) && !s.contains(b)
                && #[trigger] self.at(a, b) > 0
    }

    /// Whether the colors form one connected whole: the matrix has an edge,
    /// and every set that holds some of the colors but not all of them has a
    /// color adjacent to one outside it. Every matrix of an image whose
    /// palette entries all occur is connected.
    pub open spec fn connected(&self) -> bool {
        &&& self.has_edges()
        &&& forall|s: Set<int>| #[trigger] splits(s, self.spec_num_colors()) ==> self.crosses(s)
    }

    /// Whether every listed sum is at least the count of its color with each
    /// placed color.
    pub closed spec fn dominates(&self, remap: Seq<usize>, sums: Seq<(usize, int)>) -> bool {
        forall|i: int, j: int|
            0 <= i < sums.len() && 0 <= j < remap.len() ==> #[trigger] sums[i].1 >= self.at(
                sums[i].0 as int,
                #[trigger] remap[j] as int,
            ) && sums[i].1 >= 0
    }

    proof fn lemma_cheapest_range(&self, remap: Seq<usize>, c: int, p: int)
        requires
            p > 0,
        ensures
            0 <= self.cheapest(remap, c, p).0 < p,
        decreases p,
    {
        if p > 1 {
            self.lemma_cheapest_range(remap, c, p - 1);
        } else {
            assert(self.cheapest(remap, c, 0).0 == 0);
        }
    }

    proof fn lemma_initial_sums(&self, r0: int, r1: int, i: int)
        requires
            0 <= r0 < r1,
            0 <= i <= 256,
        ensures
            ({
                let k = sum_colors(self.initial_sums(r0, r1, i));
                &&& k.len() == i - (if r0 < i { 1int } else { 0 }) - (if r1 < i { 1int } else { 0 })
                &&& forall|j: int| 0 <= j < k.len() ==> #[trigger] k[j] < i && k[j] != r0 && k[j] != r1
                &&& forall|b: int| 0 <= b < i && b != r0 && b != r1 ==> #[trigger] has_value(k, b)
                &&& forall|j: int| 0 <= j < k.len() ==> #[trigger] self.initial_sums(r0, r1, i)[j].1 == self.at(
                    k[j] as int,
                    r0,
                ) + self.at(k[j] as int, r1)
            }),
        decreases i,
    {
        if i > 0 {
            self.lemma_initial_sums(r0, r1, i - 1);
            let prev = self.initial_sums(r0, r1, i - 1);
            let kp = sum_colors(prev);
            let k = sum_colors(self.initial_sums(r0, r1, i));
            if i - 1 == r0 || i - 1 == r1 {
                assert(k == kp);
            } else {
                assert(k =~= kp.push((i - 1) as usize));
                assert forall|b: int| 0 <= b < i && b != r0 && b != r1 implies #[trigger] has_value(k, b) by {
                    if b == i - 1 {
                        assert(k[kp.len() as int] == b);
                    } else {
                        assert(has_value(kp, b));
                        let j = choose|j: int| 0 <= j < kp.len() && kp[j] == b;
                        assert(k[j] == b);
                    }
                }
            }
        }
    }

    /// One step of the run keeps the placed colors and the listed ones
    /// covering `0..n`.
    proof fn lemma_zeng_step_covers(&self, remap: Seq<usize>, sums: Seq<(usize, int)>, bp: int, p: int, n: int)
        requires
            covers(remap + sum_colors(sums), n),
            0 <= bp < sums.len(),
            0 <= p <= remap.len(),
        ensures
            covers(
                remap.insert(p, sums[bp].0) + sum_colors(
                    self.added_sums(sums.update(bp, sums.last()).drop_last(), sums[bp].0 as int),
                ),
                n,
            ),
    {
        let c = sums[bp].0;
        let t = remap + sum_colors(sums);
        let remap2 = remap.insert(p, c);
        let sums1 = sums.update(bp, sums.last()).drop_last();
        let k = sum_colors(sums);
        let k2 = sum_colors(self.added_sums(sums1, c as int));
        assert(k2 =~= k.update(bp, k.last()).drop_last());
        let t2 = remap2 + k2;
        let m = remap.len() as int;
        assert(t[m + bp] == c);
        assert forall|i: int| 0 <= i < t2.len() implies #[trigger] t2[i] < n by {
            if i < p {
                assert(t2[i] == t[i]);
            } else if i == p {
            } else if i <= m {
                assert(t2[i] == t[i - 1]);
            } else if i - m - 1 == bp {
                assert(t2[i] == t[m + k.len() - 1]);
            } else {
                assert(t2[i] == t[i - 1]);
            }
        }
        assert forall|b: int| 0 <= b < n implies #[trigger] has_value(t2, b) by {
            assert(has_value(t, b));
            let i = choose|i: int| 0 <= i < t.len() && t[i] == b;
            if i < p {
                assert(t2[i] == b);
            } else if i < m {
                assert(t2[i + 1] == b);
            } else if i - m == bp {
                assert(t2[p] == b);
            } else if i - m == k.len() - 1 {
                assert(t2[m + 1 + bp] == b);
            } else {
                assert(t2[i + 1] == b);
            }
        }
    }

    proof fn lemma_zeng_run_permutation(
        &self,
        how: Placement,
        remap: Seq<usize>,
        sums: Seq<(usize, int)>,
        best_pos: int,
        best: (usize, int),
    )
        requires
            self.inv(),
            self.connected(),
            covers(remap + sum_colors(sums), self.num_colors as int),
            remap.len() >= 1,
            self.dominates(remap, sums),
            (best_pos, best) == best_of(sums, sums.len() as int),
        ensures
            is_permutation(self.zeng_run(how, remap, sums, best_pos, best), self.num_colors as int),
        decreases sums.len(),
    {
        let n = self.num_colors as int;
        let m = remap.len() as int;
        let t = remap + sum_colors(sums);
        if sums.len() == 0 {
            assert(t =~= remap);
            lemma_cover_permutation(remap, n);
        } else {
            lemma_best_of_max(sums, sums.len() as int);
            lemma_cover_permutation(t, n);
            // The placed colors form a set that the listed ones lie outside of.
            let placed = Set::new(|x: int| has_value(remap, x));
            assert(placed.contains(remap[0] as int));
            assert(t[0] == remap[0]);
            assert(!placed.contains(t[m] as int)) by {
                if has_value(remap, t[m] as int) {
                    let q = choose|q: int| 0 <= q < remap.len() && remap[q] == t[m];
                    assert(t[q] == remap[q]);
                }
            }
            assert(splits(placed, self.spec_num_colors()));
            assert(self.crosses(placed));
            let (a, b) = choose|a: int, b: int|
                0 <= a < n && 0 <= b < n && placed.contains(a) && !placed.contains(b) && #[trigger] self.at(a, b) > 0;
            let ja = choose|q: int| 0 <= q < remap.len() && remap[q] == a;
            assert(has_value(t, b));
            let ib = choose|q: int| 0 <= q < t.len() && t[q] == b;
            assert(ib >= m) by {
                if ib < m {
                    assert(remap[ib] == b);
                }
            }
            let li = ib - m;
            assert(sums[li].0 == b);
            assert(sums[li].1 >= self.at(sums[li].0 as int, remap[ja] as int));
            self.lemma_at_sym(a, b);
            assert(best.1 > 0);
            assert(best == sums[best_pos]);
            let c = best.0 as int;
            let p = self.place(how, remap, c);
            assert(0 <= p <= remap.len()) by {
                if how is Cheapest {
                    self.lemma_cheapest_range(remap, c, remap.len() + 1int);
                }
            }
            let sums1 = sums.update(best_pos, sums.last()).drop_last();
            let sums2 = self.added_sums(sums1, c);
            let remap2 = remap.insert(p, best.0);
            self.lemma_zeng_step_covers(remap, sums, best_pos, p, n);
            assert(c < n) by {
                assert(t[m + best_pos] == c);
            }
            assert(self.dominates(remap2, sums2)) by {
                assert forall|i: int, j: int| 0 <= i < sums2.len() && 0 <= j < remap2.len() implies #[trigger] sums2[i].1
                    >= self.at(sums2[i].0 as int, #[trigger] remap2[j] as int) && sums2[i].1 >= 0 by {
                    let e1 = sums1[i];
                    let i0 = if i == best_pos { sums.len() - 1 } else { i };
                    assert(e1 == sums[i0]);
                    assert(t[m + i0] == e1.0);
                    let x = e1.0 as int;
                    assert(sums2[i] == (e1.0, e1.1 + self.at(c, x)));
                    self.lemma_at_sym(c, x);
                    if j == p {
                        assert(remap2[j] == c);
                        assert(e1.1 >= self.at(x, remap[0] as int));
                    } else {
                        let j0 = if j < p { j } else { j - 1 };
                        assert(remap2[j] == remap[j0]);
                        assert(e1.1 >= self.at(x, remap[j0] as int));
                    }
                }
            }
            let (bp, b2) = best_of(sums2, sums2.len() as int);
            self.lemma_zeng_run_permutation(how, remap2, sums2, bp, b2);
        }
    }

    proof fn lemma_zeng_run_ends_adjacent(
        &self,
        remap: Seq<usize>,
        sums: Seq<(usize, int)>,
        best_pos: int,
        best: (usize, int),
        i: int,
    )
        requires
            0 <= i < remap.len() - 1,
        ensures
            exists|j: int|
                0 <= j < self.zeng_run(Placement::Ends, remap, sums, best_pos, best).len() - 1
                    && #[trigger] self.zeng_run(Placement::Ends, remap, sums, best_pos, best)[j] == remap[i]
                    && self.zeng_run(Placement::Ends, remap, sums, best_pos, best)[j + 1] == remap[i + 1],
        decreases sums.len(),
    {
        let r = self.zeng_run(Placement::Ends, remap, sums, best_pos, best);
        if sums.len() == 0 || !(0 <= best_pos < sums.len()) {
            assert(r[i] == remap[i]);
        } else {
            let c = best.0 as int;
            let p = self.place(Placement::Ends, remap, c);
            let remap2 = remap.insert(p, best.0);
            let sums1 = sums.update(best_pos, sums.last()).drop_last();
            let sums2 = self.added_sums(sums1, c);
            let (bp, b) = best_of(sums2, sums2.len() as int);
            let i2 = if p == 0 { i + 1 } else { i };
            assert(remap2[i2] == remap[i] && remap2[i2 + 1] == remap[i + 1]);
            self.lemma_zeng_run_ends_adjacent(remap2, sums2, bp, b, i2);
        }
    }

    /// The mzeng order keeps the two colors of the heaviest edge next to
    /// each other, as it places every other color at one of the ends.
    pub proof fn lemma_mzeng_keeps_heaviest_edge(&self)
        requires
            self.inv(),
            self.has_edges(),
        ensures
            exists|j: int|
                0 <= j < self.zeng(Placement::Ends).len() - 1 && #[trigger] self.zeng(Placement::Ends)[j]
                    == self.spec_edges()[0].0 && self.zeng(Placement::Ends)[j + 1] == self.spec_edges()[0].1,
    {
        let e = self.weighted_edges@[0];
        let n = self.num_colors as int;
        let sums = self.initial_sums(e.0 as int, e.1 as int, n);
        let (bp, b) = best_of(sums, sums.len() as int);
        let remap = seq![e.0 as usize, e.1 as usize];
        assert(edge_ok(e, n));
        self.lemma_zeng_run_ends_adjacent(remap, sums, bp, b, 0);
        let r = self.zeng_run(Placement::Ends, remap, sums, bp, b);
        assert(r == self.zeng(Placement::Ends));
        let j = choose|j: int| 0 <= j < r.len() - 1 && #[trigger] r[j] == remap[0] && r[j + 1] == remap[1];
        assert(r[j] == self.spec_edges()[0].0 && r[j + 1] == self.spec_edges()[0].1);
    }

    /// Zeng's technique orders the colors `0..n`, each once, on a connected
    /// matrix: each step places a color adjacent to one already placed, the
    /// one it takes off the list of sums.
    pub proof fn lemma_zeng_permutation(&self, how: Placement)
        requires
            self.inv(),
            self.connected(),
        ensures
            is_permutation(self.zeng(how), self.spec_num_colors()),
    {
        let n = self.num_colors as int;
        let e = self.weighted_edges@[0];
        assert(edge_ok(e, n));
        let sums = self.initial_sums(e.0 as int, e.1 as int, n);
        self.lemma_initial_sums(e.0 as int, e.1 as int, n);
        let remap = seq![e.0 as usize, e.1 as usize];
        let k = sum_colors(sums);
        let t = remap + k;
        assert forall|i: int| 0 <= i < t.len() implies #[trigger] t[i] < n by {
            if i >= 2 {
                assert(t[i] == k[i - 2]);
            }
        }
        assert forall|b: int| 0 <= b < n implies #[trigger] has_value(t, b) by {
            if b == e.0 {
                assert(t[0] == b);
            } else if b == e.1 {
                assert(t[1] == b);
            } else {
                assert(has_value(k, b));
                let j = choose|j: int| 0 <= j < k.len() && k[j] == b;
                assert(t[j + 2] == b);
            }
        }
        assert(self.dominates(remap, sums)) by {
            assert forall|i: int, j: int| 0 <= i < sums.len() && 0 <= j < remap.len() implies #[trigger] sums[i].1
                >= self.at(sums[i].0 as int, #[trigger] remap[j] as int) && sums[i].1 >= 0 by {
                assert(k[i] == sums[i].0);
                assert(sums[i].1 == self.at(k[i] as int, e.0 as int) + self.at(k[i] as int, e.1 as int));
            }
        }
        let (bp, b) = best_of(sums, sums.len() as int);
        self.lemma_zeng_run_permutation(how, remap, sums, bp, b);
    }
}

impl CoOccurrenceMatrix {
    proof fn lemma_at_bound(&self, a: int, b: int)
        requires
            self.inv(),
            0 <= a < self.num_colors,
            0 <= b < self.num_colors,
        ensures
            0 <= self.at(a, b) <= u32::MAX,
            0 <= cell(self.num_colors as int, a, b) < self.data@.len(),
    {
        lemma_cell(self.num_colors as int, a, b);
    }

    /// The count of row `a`, column `b`.
    fn get(&self, a: usize, b: usize) -> (r: u32)
        requires
            self.inv(),
            a < self.num_colors,
            b < self.num_colors,
        ensures
            r == self.at(a as int, b as int),
    {
        proof {
            lemma_cell(self.num_colors as int, a as int, b as int);
            lemma_row_range(self.num_colors as int, a as int);
        }
        self.data[a * self.num_colors + b]
    }

    fn ends_delta_exec(&self, remap: &Vec<usize>, c: usize) -> (r: i64)
        requires
            self.inv(),
            c < self.num_colors,
            remap@.len() <= self.num_colors,
            colors_below(remap@, self.num_colors as int),
        ensures
            r == self.ends_delta(remap@, c as int, remap@.len() as int),
    {
        let m = remap.len();
        let mut delta: i64 = 0;
        let mut i: usize = 0;
        while i < m
            invariant
                self.inv(),
                c < self.num_colors,
                m == remap@.len(),
                m <= self.num_colors,
                colors_below(remap@, self.num_colors as int),
                i <= m,
                delta == self.ends_delta(remap@, c as int, i as int),
                -(i as int) * 0x200_0000_0000 <= delta <= (i as int) * 0x200_0000_0000,
            decreases m - i,
        {
            let w = self.get(c, remap[i]) as i64;
            let factor: i64 = m as i64 - 1 - 2 * i as i64;
            assert(-512 <= factor <= 512);
            assert(-0x200_0000_0000 <= factor * w <= 0x200_0000_0000) by (nonlinear_arith)
                requires
                    -512 <= factor <= 512,
                    0 <= w <= 0xFFFF_FFFF,
            ;
            delta = delta + factor * w;
            i += 1;
        }
        delta
    }

    fn new_cost_exec(&self, remap: &Vec<usize>, c: usize, p: usize) -> (r: i64)
        requires
            self.inv(),
            c < self.num_colors,
            remap@.len() <= self.num_colors,
            p <= remap@.len(),
            colors_below(remap@, self.num_colors as int),
        ensures
            r == self.new_cost(remap@, c as int, p as int, remap@.len() as int),
            0 <= r <= 256 * 0x101_0000_0000,
    {
        let m = remap.len();
        let mut cost: i64 = 0;
        let mut k: usize = 0;
        while k < m
            invariant
                self.inv(),
                c < self.num_colors,
                m == remap@.len(),
                m <= self.num_colors,
                p <= m,
                colors_below(remap@, self.num_colors as int),
                k <= m,
                cost == self.new_cost(remap@, c as int, p as int, k as int),
                0 <= cost <= (k as int) * 0x101_0000_0000,
            decreases m - k,
        {
            let w = self.get(c, remap[k]) as i64;
            let dist: i64 = if k < p {
                (p - k) as i64
            } else {
                (k + 1 - p) as i64
            };
            assert(0 <= w * dist <= 0x101_0000_0000) by (nonlinear_arith)
                requires
                    0 <= dist <= 257,
                    0 <= w <= 0xFFFF_FFFF,
            ;
            cost = cost + w * dist;
            k += 1;
        }
        assert(k * 0x101_0000_0000 <= 256 * 0x101_0000_0000) by (nonlinear_arith)
            requires
                k <= 256,
        ;
        cost
    }

    fn span_sum_exec(&self, remap: &Vec<usize>, p: usize, from: usize, to: usize) -> (r: i64)
        requires
            self.inv(),
            remap@.len() <= self.num_colors,
            p < remap@.len(),
            from <= to <= remap@.len(),
            colors_below(remap@, self.num_colors as int),
        ensures
            r == self.span_sum(remap@, p as int, from as int, to as int),
            0 <= r <= (to - from) * 0xFFFF_FFFF,
    {
        let mut sum: i64 = 0;
        let mut b = from;
        while b < to
            invariant
                self.inv(),
                remap@.len() <= self.num_colors,
                p < remap@.len(),
                from <= b <= to <= remap@.len(),
                colors_below(remap@, self.num_colors as int),
                sum == self.span_sum(remap@, p as int, from as int, b as int),
                0 <= sum <= (b - from) * 0xFFFF_FFFF,
            decreases to - b,
        {
            sum = sum + self.get(remap[p], remap[b]) as i64;
            b += 1;
        }
        sum
    }

    proof fn lemma_cross_bound(&self, remap: Seq<usize>, p: int)
        requires
            self.inv(),
            remap.len() <= self.num_colors,
            0 <= p <= remap.len(),
            colors_below(remap, self.num_colors as int),
        ensures
            -(p * 0x100_FFFF_FFFF) <= self.cross_cost(remap, p) <= p * 0x100_FFFF_FFFF,
        decreases p,
    {
        if p > 0 {
            self.lemma_cross_bound(remap, p - 1);
            self.lemma_span_bound(remap, p - 1, p, remap.len() as int);
            self.lemma_span_bound(remap, p - 1, 0, p - 1);
        }
    }

    proof fn lemma_span_bound(&self, remap: Seq<usize>, p: int, from: int, to: int)
        requires
            self.inv(),
            remap.len() <= self.num_colors,
            0 <= p < remap.len(),
            0 <= from <= to <= remap.len(),
            colors_below(remap, self.num_colors as int),
        ensures
            0 <= self.span_sum(remap, p, from, to) <= (to - from) * 0xFFFF_FFFF,
        decreases to - from,
    {
        if to > from {
            self.lemma_span_bound(remap, p, from, to - 1);
            self.lemma_at_bound(remap[p] as int, remap[to - 1] as int);
        }
    }

    fn cheapest_exec(&self, remap: &Vec<usize>, c: usize) -> (r: usize)
        requires
            self.inv(),
            c < self.num_colors,
            remap@.len() <= self.num_colors,
            colors_below(remap@, self.num_colors as int),
        ensures
            r == self.cheapest(remap@, c as int, remap@.len() + 1int).0,
            r <= remap@.len(),
    {
        let m = remap.len();
        let mut best_pos: usize = 0;
        let mut best_cost: i64 = i64::MAX;
        let mut cross_cost: i64 = 0;
        let mut p: usize = 0;
        while p <= m
            invariant
                self.inv(),
                c < self.num_colors,
                m == remap@.len(),
                m <= self.num_colors,
                colors_below(remap@, self.num_colors as int),
                p <= m + 1,
                (best_pos as int, best_cost as int) == self.cheapest(remap@, c as int, p as int),
                best_pos <= m,
                p <= m ==> cross_cost == self.cross_cost(remap@, p as int),
            decreases m + 1 - p,
        {
            // New element's weighted distance to all existing elements
            let new_cost = self.new_cost_exec(remap, c, p);
            proof {
                self.lemma_cross_bound(remap@, p as int);
            }
            let total = new_cost + cross_cost;
            if total < best_cost {
                best_cost = total;
                best_pos = p;
            }
            // Update cross_cost for position p+1
            if p < m {
                let up = self.span_sum_exec(remap, p, p + 1, m);
                let down = self.span_sum_exec(remap, p, 0, p);
                proof {
                    self.lemma_cross_bound(remap@, p + 1);
                }
                cross_cost = cross_cost + up - down;
            }
            p += 1;
        }
        best_pos
    }
}


/// Whether every sum names a color of `0..n` and is at most `k` counts.
pub open spec fn sums_ok(sums: Seq<(usize, u64)>, n: int, k: int) -> bool {
    forall|i: int| 0 <= i < sums.len() ==> (#[trigger] sums[i]).0 < n && sums[i].1 <= k * 0xFFFF_FFFF
}

proof fn lemma_best_of_range(sums: Seq<(usize, int)>, k: int)
    requires
        0 <= k <= sums.len(),
    ensures
        k > 0 ==> 0 <= best_of(sums, k).0 < k,
        best_of(sums, k).1 == (0usize, 0int) || (exists|i: int| 0 <= i < k && sums[i] == best_of(sums, k).1),
    decreases k,
{
    if k > 0 {
        lemma_best_of_range(sums, k - 1);
    }
}

proof fn lemma_best_of_max(sums: Seq<(usize, int)>, k: int)
    requires
        0 <= k <= sums.len(),
    ensures
        forall|i: int| 0 <= i < k ==> (#[trigger] sums[i]).1 <= best_of(sums, k).1.1,
        best_of(sums, k).1.1 >= 0,
        best_of(sums, k).1.1 > 0 ==> 0 <= best_of(sums, k).0 < k && best_of(sums, k).1 == sums[best_of(sums, k).0],
    decreases k,
{
    if k > 0 {
        lemma_best_of_max(sums, k - 1);
    }
}

/// The position and entry with the largest sum (the first of them), or
/// position 0 and `(0, 0)` while no sum is positive.
fn best_sum(sums: &Vec<(usize, u64)>) -> (r: (usize, (usize, u64)))
    ensures
        (r.0 as int, (r.1.0, r.1.1 as int)) == best_of(sums_view(sums@), sums@.len() as int),
{
    let ghost sv = sums_view(sums@);
    let mut best_pos: usize = 0;
    let mut best: (usize, u64) = (0, 0);
    let mut i: usize = 0;
    while i < sums.len()
        invariant
            sv == sums_view(sums@),
            i <= sums@.len(),
            (best_pos as int, (best.0, best.1 as int)) == best_of(sv, i as int),
        decreases sums@.len() - i,
    {
        assert(sv[i as int] == (sums@[i as int].0, sums@[i as int].1 as int));
        if sums[i].1 > best.1 {
            best_pos = i;
            best = sums[i];
        }
        i += 1;
    }
    (best_pos, best)
}

impl CoOccurrenceMatrix {
    /// The starting sums of Zeng's technique for the edge `r0`, `r1`.
    fn initial_sums_exec(&self, r0: usize, r1: usize) -> (r: Vec<(usize, u64)>)
        requires
            self.inv(),
            r0 < r1 < self.num_colors,
        ensures
            sums_view(r@) == self.initial_sums(r0 as int, r1 as int, self.num_colors as int),
            r@.len() == self.num_colors - 2,
            sums_ok(r@, self.num_colors as int, 2),
    {
        let n = self.num_colors;
        let mut sums: Vec<(usize, u64)> = Vec::new();
        let mut i: usize = 0;
        while i < n
            invariant
                self.inv(),
                n == self.num_colors,
                r0 < r1 < n,
                i <= n,
                sums_view(sums@) == self.initial_sums(r0 as int, r1 as int, i as int),
                sums@.len() == i - (if r0 < i { 1int } else { 0 }) - (if r1 < i { 1int } else { 0 }),
                sums_ok(sums@, n as int, 2),
            decreases n - i,
        {
            if i != r0 && i != r1 {
                let sum = self.get(i, r0) as u64 + self.get(i, r1) as u64;
                let ghost prev = sums@;
                sums.push((i, sum));
                assert(sums_view(sums@) =~= sums_view(prev).push((i, sum as int)));
            }
            i += 1;
        }
        sums
    }
}

impl CoOccurrenceMatrix {
    /// Grow each sum by its count with the color `c` just placed.
    fn add_sums(&self, sums: &mut Vec<(usize, u64)>, c: usize, k: usize)
        requires
            self.inv(),
            c < self.num_colors,
            k <= 256,
            sums_ok(old(sums)@, self.num_colors as int, k as int),
        ensures
            sums_view(final(sums)@) == self.added_sums(sums_view(old(sums)@), c as int),
            sums_ok(final(sums)@, self.num_colors as int, k + 1),
            final(sums)@.len() == old(sums)@.len(),
    {
        let ghost s0 = sums@;
        let mut i: usize = 0;
        while i < sums.len()
            invariant
                self.inv(),
                c < self.num_colors,
                k <= 256,
                sums_ok(s0, self.num_colors as int, k as int),
                sums@.len() == s0.len(),
                i <= sums@.len(),
                forall|j: int|
                    0 <= j < i ==> (#[trigger] sums@[j]).0 == s0[j].0 && sums@[j].1 == s0[j].1 + self.at(
                        c as int,
                        s0[j].0 as int,
                    ),
                forall|j: int| i <= j < sums@.len() ==> #[trigger] sums@[j] == s0[j],
            decreases sums@.len() - i,
        {
            let (col, v) = sums[i];
            assert(s0[i as int] == (col, v));
            let w = self.get(c, col) as u64;
            sums.set(i, (col, v + w));
            i += 1;
        }
        assert(sums_view(sums@) =~= self.added_sums(sums_view(s0), c as int));
    }

    /// Zeng's greedy reindexing: start from the heaviest edge, then place the
    /// color with the largest count towards the placed ones, where `how` says,
    /// and repeat until every color is placed.
    fn zeng_reindex(&self, how: Placement) -> (r: Vec<usize>)
        requires
            self.inv(),
            self.has_edges(),
        ensures
            r@ == self.zeng(how),
            r@.len() == self.num_colors,
            colors_below(r@, self.num_colors as int),
    {
        let n = self.num_colors;
        let e = self.weighted_edges[0];
        assert(edge_ok(self.weighted_edges@[0], n as int));
        let mut remapping: Vec<usize> = vec![e.0 as usize, e.1 as usize];
        assert(remapping@ =~= seq![e.0 as usize, e.1 as usize]);
        let mut sums = self.initial_sums_exec(e.0 as usize, e.1 as usize);
        let (bp, b) = best_sum(&sums);
        let mut best_pos = bp;
        let mut best = b;
        while sums.len() > 0
            invariant
                self.inv(),
                n == self.num_colors,
                remapping@.len() + sums@.len() == n,
                2 <= remapping@.len() <= n,
                colors_below(remapping@, n as int),
                sums_ok(sums@, n as int, remapping@.len() as int),
                (best_pos as int, (best.0, best.1 as int)) == best_of(sums_view(sums@), sums@.len() as int),
                self.zeng(how) == self.zeng_run(
                    how,
                    remapping@,
                    sums_view(sums@),
                    best_pos as int,
                    (best.0, best.1 as int),
                ),
            decreases sums@.len(),
        {
            proof {
                lemma_best_of_range(sums_view(sums@), sums@.len() as int);
                if best != (0usize, 0u64) {
                    let i = choose|i: int| 0 <= i < sums@.len() && sums_view(sums@)[i] == (best.0, best.1 as int);
                    assert(sums_view(sums@)[i] == (sums@[i].0, sums@[i].1 as int));
                    assert(sums@[i].0 < n);
                }
            }
            let c = best.0;
            let pos = match how {
                Placement::Ends => {
                    if self.ends_delta_exec(&remapping, c) > 0 {
                        0
                    } else {
                        remapping.len()
                    }
                },
                Placement::Cheapest => self.cheapest_exec(&remapping, c),
            };
            let ghost sv = sums_view(sums@);
            let ghost r0 = remapping@;
            let placed = remapping.len();
            assert(pos == self.place(how, r0, c as int));
            remapping.insert(pos, c);
            sums.swap_remove(best_pos);
            assert(sums_view(sums@) =~= sv.update(best_pos as int, sv.last()).drop_last());
            assert(sums_ok(sums@, n as int, r0.len() as int));
            self.add_sums(&mut sums, c, placed);
            let (bp, b) = best_sum(&sums);
            best_pos = bp;
            best = b;
        }
        remapping
    }
}

/// The distance between two positions.
pub open spec fn gap(i: int, j: int) -> int {
    if i <= j {
        j - i
    } else {
        i - j
    }
}

/// The order with the colors at positions `a` and `b` exchanged.
pub open spec fn swapped(r: Seq<usize>, a: int, b: int) -> Seq<usize> {
    r.update(a, r[b]).update(b, r[a])
}

impl CoOccurrenceMatrix {
    /// The counts of the color at position `i` with the colors at positions
    /// `0..k`, each times their distance.
    pub closed spec fn row_cost(&self, r: Seq<usize>, i: int, k: int) -> int
        decreases k,
    {
        if k <= 0 {
            0
        } else {
            self.row_cost(r, i, k - 1) + self.at(r[i] as int, r[k - 1] as int) * gap(i, k - 1)
        }
    }

    /// The row costs of the positions `0..k`.
    pub closed spec fn cost_upto(&self, r: Seq<usize>, k: int) -> int
        decreases k,
    {
        if k <= 0 {
            0
        } else {
            self.cost_upto(r, k - 1) + self.row_cost(r, k - 1, r.len() as int)
        }
    }

    /// The cost of an order: over every two positions, the count of their
    /// colors times their distance (each pair counted both ways).
    pub closed spec fn order_cost(&self, r: Seq<usize>) -> int {
        self.cost_upto(r, r.len() as int)
    }

    /// Half the change of the cost that exchanging positions `a` and `b`
    /// makes, over the positions `0..k`.
    pub closed spec fn swap_gain(&self, r: Seq<usize>, a: int, b: int, k: int) -> int
        decreases k,
    {
        if k <= 0 {
            0
        } else {
            let i = k - 1;
            self.swap_gain(r, a, b, k - 1) + (if i == a || i == b {
                0
            } else {
                (self.at(r[a] as int, r[i] as int) - self.at(r[b] as int, r[i] as int)) * (gap(b, i) - gap(a, i))
            })
        }
    }

    /// One pass of pairwise swaps, from the pair `(a, b)` on, over the pairs
    /// less than `lim` apart: each exchange that lowers the cost is made. The
    /// resulting order and the count of exchanges, added to `s`.
    pub closed spec fn swap_pass(&self, r: Seq<usize>, lim: int, a: int, b: int, s: int) -> (Seq<usize>, int)
        decreases r.len() - a, r.len() + 1 - b,
    {
        if a < 0 || a >= r.len() - 1 {
            (r, s)
        } else if b <= a || b >= a + lim || b >= r.len() {
            self.swap_pass(r, lim, a + 1, a + 2, s)
        } else if self.swap_gain(r, a, b, r.len() as int) < 0 {
            proof {
                assert(swapped(r, a, b).len() == r.len());
            }
            self.swap_pass(swapped(r, a, b), lim, a, b + 1, s + 1)
        } else {
            self.swap_pass(r, lim, a, b + 1, s)
        }
    }
}

impl CoOccurrenceMatrix {
    proof fn lemma_row_cost_nonneg(&self, r: Seq<usize>, i: int, k: int)
        ensures
            self.row_cost(r, i, k) >= 0,
        decreases k,
    {
        if k > 0 {
            self.lemma_row_cost_nonneg(r, i, k - 1);
            let w = self.at(r[i] as int, r[k - 1] as int);
            let g = gap(i, k - 1);
            assert(w * g >= 0) by (nonlinear_arith)
                requires
                    w >= 0,
                    g >= 0,
            ;
        }
    }

    proof fn lemma_cost_nonneg(&self, r: Seq<usize>, k: int)
        ensures
            self.cost_upto(r, k) >= 0,
        decreases k,
    {
        if k > 0 {
            self.lemma_cost_nonneg(r, k - 1);
            self.lemma_row_cost_nonneg(r, k - 1, r.len() as int);
        }
    }

    proof fn lemma_at_sym(&self, a: int, b: int)
        requires
            self.inv(),
            0 <= a < self.num_colors,
            0 <= b < self.num_colors,
        ensures
            self.at(a, b) == self.at(b, a),
    {
        assert(self.data@[cell(self.num_colors as int, a, b)] == self.data@[cell(self.num_colors as int, b, a)]);
    }

    /// The row of a position other than `a` and `b` after the exchange.
    proof fn lemma_row_other(&self, r: Seq<usize>, a: int, b: int, i: int, k: int)
        requires
            0 <= a < b < r.len(),
            0 <= i < r.len(),
            i != a && i != b,
            0 <= k <= r.len(),
        ensures
            self.row_cost(swapped(r, a, b), i, k) - self.row_cost(r, i, k) == (if a < k {
                (self.at(r[i] as int, r[b] as int) - self.at(r[i] as int, r[a] as int)) * gap(i, a)
            } else {
                0
            }) + (if b < k {
                (self.at(r[i] as int, r[a] as int) - self.at(r[i] as int, r[b] as int)) * gap(i, b)
            } else {
                0
            }),
        decreases k,
    {
        if k > 0 {
            self.lemma_row_other(r, a, b, i, k - 1);
            let t = swapped(r, a, b);
            let j = k - 1;
            let x = self.at(r[i] as int, r[a] as int);
            let y = self.at(r[i] as int, r[b] as int);
            assert(t[i] == r[i]);
            if j == a {
                assert(t[j] == r[b]);
                let g = gap(i, a);
                assert(y * g - x * g == (y - x) * g) by (nonlinear_arith);
            } else if j == b {
                assert(t[j] == r[a]);
                let g = gap(i, b);
                assert(x * g - y * g == (x - y) * g) by (nonlinear_arith);
            } else {
                assert(t[j] == r[j]);
            }
        }
    }

    /// The rows of positions `a` and `b` after the exchange.
    proof fn lemma_row_pair(&self, r: Seq<usize>, a: int, b: int, k: int)
        requires
            self.inv(),
            colors_below(r, self.num_colors as int),
            0 <= a < b < r.len(),
            0 <= k <= r.len(),
        ensures
            self.row_cost(swapped(r, a, b), a, k) + self.row_cost(swapped(r, a, b), b, k) - self.row_cost(r, a, k)
                - self.row_cost(r, b, k) == self.swap_gain(r, a, b, k),
        decreases k,
    {
        if k > 0 {
            self.lemma_row_pair(r, a, b, k - 1);
            let t = swapped(r, a, b);
            let j = k - 1;
            assert(t[a] == r[b] && t[b] == r[a]);
            let ra = r[a] as int;
            let rb = r[b] as int;
            let rj = r[j] as int;
            let ga = gap(a, j);
            let gb = gap(b, j);
            if j == a {
                self.lemma_at_sym(ra, rb);
                assert(t[j] == r[b]);
                assert(ga == 0);
            } else if j == b {
                self.lemma_at_sym(ra, rb);
                assert(t[j] == r[a]);
                assert(gb == 0);
            } else {
                assert(t[j] == r[j]);
                let wa = self.at(ra, rj);
                let wb = self.at(rb, rj);
                assert(wb * ga + wa * gb - wa * ga - wb * gb == (wa - wb) * (gb - ga)) by (nonlinear_arith);
            }
        }
    }

    proof fn lemma_cost_upto_swap(&self, r: Seq<usize>, a: int, b: int, k: int)
        requires
            self.inv(),
            colors_below(r, self.num_colors as int),
            0 <= a < b < r.len(),
            0 <= k <= r.len(),
        ensures
            self.cost_upto(swapped(r, a, b), k) - self.cost_upto(r, k) == self.swap_gain(r, a, b, k) + (if a < k {
                self.row_cost(swapped(r, a, b), a, r.len() as int) - self.row_cost(r, a, r.len() as int)
            } else {
                0
            }) + (if b < k {
                self.row_cost(swapped(r, a, b), b, r.len() as int) - self.row_cost(r, b, r.len() as int)
            } else {
                0
            }),
        decreases k,
    {
        if k > 0 {
            self.lemma_cost_upto_swap(r, a, b, k - 1);
            let i = k - 1;
            let n = r.len() as int;
            if i != a && i != b {
                self.lemma_row_other(r, a, b, i, n);
                let ri = r[i] as int;
                let ra = r[a] as int;
                let rb = r[b] as int;
                self.lemma_at_sym(ri, ra);
                self.lemma_at_sym(ri, rb);
                let x = self.at(ra, ri);
                let y = self.at(rb, ri);
                let ga = gap(i, a);
                let gb = gap(i, b);
                assert(gap(a, i) == ga && gap(b, i) == gb);
                assert((y - x) * ga + (x - y) * gb == (x - y) * (gb - ga)) by (nonlinear_arith);
            }
        }
    }

    /// Exchanging two positions changes the cost by twice the gain.
    proof fn lemma_swap_cost(&self, r: Seq<usize>, a: int, b: int)
        requires
            self.inv(),
            colors_below(r, self.num_colors as int),
            0 <= a < b < r.len(),
        ensures
            self.order_cost(swapped(r, a, b)) == self.order_cost(r) + 2 * self.swap_gain(r, a, b, r.len() as int),
            colors_below(swapped(r, a, b), self.num_colors as int),
            swapped(r, a, b).len() == r.len(),
    {
        let n = r.len() as int;
        self.lemma_cost_upto_swap(r, a, b, n);
        self.lemma_row_pair(r, a, b, n);
        assert(swapped(r, a, b).len() == n);
    }
}

proof fn lemma_swap_permutation(r: Seq<usize>, a: int, b: int, n: int)
    requires
        is_permutation(r, n),
        0 <= a < b < r.len(),
    ensures
        is_permutation(swapped(r, a, b), n),
{
    let t = swapped(r, a, b);
    let f = |i: int| if i == a {
        b
    } else if i == b {
        a
    } else {
        i
    };
    assert forall|i: int| 0 <= i < r.len() implies 0 <= #[trigger] f(i) < r.len() && t[f(i)] == r[i] by {}
    lemma_moved_permutation(r, t, f, n);
}

impl CoOccurrenceMatrix {
    proof fn lemma_pass(&self, r: Seq<usize>, lim: int, a: int, b: int, s: int)
        requires
            self.inv(),
            colors_below(r, self.num_colors as int),
        ensures
            ({
                let p = self.swap_pass(r, lim, a, b, s);
                &&& self.order_cost(p.0) + 2 * (p.1 - s) <= self.order_cost(r)
                &&& p.1 >= s
                &&& colors_below(p.0, self.num_colors as int)
                &&& p.0.len() == r.len()
                &&& is_permutation(r, self.num_colors as int) ==> is_permutation(p.0, self.num_colors as int)
            }),
        decreases r.len() - a, r.len() + 1 - b,
    {
        if a < 0 || a >= r.len() - 1 {
        } else if b <= a || b >= a + lim || b >= r.len() {
            self.lemma_pass(r, lim, a + 1, a + 2, s);
        } else if self.swap_gain(r, a, b, r.len() as int) < 0 {
            self.lemma_swap_cost(r, a, b);
            if is_permutation(r, self.num_colors as int) {
                lemma_swap_permutation(r, a, b, self.num_colors as int);
            }
            self.lemma_pass(swapped(r, a, b), lim, a, b + 1, s + 1);
        } else {
            self.lemma_pass(r, lim, a, b + 1, s);
        }
    }

    /// Pairwise swap search: passes of pairwise swaps, repeated while a pass
    /// made at least two exchanges.
    pub closed spec fn swap_search(&self, r: Seq<usize>, lim: int) -> Seq<usize>
        decreases self.order_cost(r),
        when self.inv() && colors_below(r, self.spec_num_colors())
    {
        let p = self.swap_pass(r, lim, 0, 1, 0);
        if p.1 >= 2 {
            proof {
                self.lemma_pass(r, lim, 0, 1, 0);
                self.lemma_cost_nonneg(p.0, p.0.len() as int);
            }
            self.swap_search(p.0, lim)
        } else {
            p.0
        }
    }
}

impl CoOccurrenceMatrix {
    /// Half the change of the cost that exchanging positions `a` and `b`
    /// would make.
    fn swap_delta(&self, remapping: &Vec<usize>, a: usize, b: usize) -> (d: i64)
        requires
            self.inv(),
            colors_below(remapping@, self.num_colors as int),
            remapping@.len() == self.num_colors,
            a < b < remapping@.len(),
        ensures
            d == self.swap_gain(remapping@, a as int, b as int, remapping@.len() as int),
    {
        let n = remapping.len();
        let ghost r = remapping@;
        let va = remapping[a];
        let vb = remapping[b];
        // Dist diff is calculated as: (b - i).abs() - (a - i).abs()
        // Split by index ranges so we can simplify the calculation and avoid checks to skip a and b
        let dist = (b - a) as i64;
        let mut delta: i64 = 0;
        let mut i: usize = 0;
        while i < a
            invariant
                self.inv(),
                colors_below(r, self.num_colors as int),
                r == remapping@,
                n == r.len() == self.num_colors,
                a < b < n,
                va == r[a as int] && vb == r[b as int],
                dist == b - a,
                i <= a,
                delta == self.swap_gain(r, a as int, b as int, i as int),
                -(i * 0x200_0000_0000) <= delta <= i * 0x200_0000_0000,
            decreases a - i,
        {
            let vi = remapping[i];
            let weight_diff = self.get(va, vi) as i64 - self.get(vb, vi) as i64;
            assert(-0x200_0000_0000 <= weight_diff * dist <= 0x200_0000_0000) by (nonlinear_arith)
                requires
                    -0xFFFF_FFFF <= weight_diff <= 0xFFFF_FFFF,
                    0 <= dist <= 256,
            ;
            delta += weight_diff * dist;
            i += 1;
        }
        let mut i: usize = a + 1;
        while i < b
            invariant
                self.inv(),
                colors_below(r, self.num_colors as int),
                r == remapping@,
                n == r.len() == self.num_colors,
                a < b < n,
                va == r[a as int] && vb == r[b as int],
                a < i <= b,
                delta == self.swap_gain(r, a as int, b as int, i as int),
                -(i * 0x200_0000_0000) <= delta <= i * 0x200_0000_0000,
            decreases b - i,
        {
            let vi = remapping[i];
            let weight_diff = self.get(va, vi) as i64 - self.get(vb, vi) as i64;
            let dist_diff = (a + b) as i64 - 2 * i as i64;
            assert(-0x200_0000_0000 <= weight_diff * dist_diff <= 0x200_0000_0000) by (nonlinear_arith)
                requires
                    -0xFFFF_FFFF <= weight_diff <= 0xFFFF_FFFF,
                    -512 <= dist_diff <= 512,
            ;
            delta += weight_diff * dist_diff;
            i += 1;
        }
        let mut i: usize = b + 1;
        while i < n
            invariant
                self.inv(),
                colors_below(r, self.num_colors as int),
                r == remapping@,
                n == r.len() == self.num_colors,
                a < b < n,
                va == r[a as int] && vb == r[b as int],
                dist == b - a,
                b < i <= n,
                delta == self.swap_gain(r, a as int, b as int, i as int),
                -(i * 0x200_0000_0000) <= delta <= i * 0x200_0000_0000,
            decreases n - i,
        {
            let vi = remapping[i];
            let weight_diff = self.get(va, vi) as i64 - self.get(vb, vi) as i64;
            assert(-0x200_0000_0000 <= weight_diff * dist <= 0x200_0000_0000) by (nonlinear_arith)
                requires
                    -0xFFFF_FFFF <= weight_diff <= 0xFFFF_FFFF,
                    0 <= dist <= 256,
            ;
            let ghost g = gap(b as int, i as int) - gap(a as int, i as int);
            assert(g == -dist);
            assert(weight_diff * g == -(weight_diff * dist)) by (nonlinear_arith)
                requires
                    g == -dist,
            ;
            delta -= weight_diff * dist;
            i += 1;
        }
        delta
    }
}

/// Pairwise swap: for each pair (a, b), swap if it reduces cost.
///
/// `max_dist` limits the distance between pairs to consider to keep it performant. A value of 1 is
/// quite fast and still provides a good improvement, but higher values can be a little better.
fn pairwise_swap_search(remapping: &mut Vec<usize>, matrix: &CoOccurrenceMatrix, max_dist: u8)
    requires
        matrix.inv(),
        colors_below(old(remapping)@, matrix.spec_num_colors()),
        old(remapping)@.len() == matrix.spec_num_colors(),
    ensures
        final(remapping)@ == matrix.swap_search(old(remapping)@, max_dist + 1),
        final(remapping)@.len() == old(remapping)@.len(),
        colors_below(final(remapping)@, matrix.spec_num_colors()),
        is_permutation(old(remapping)@, matrix.spec_num_colors()) ==> is_permutation(
            final(remapping)@,
            matrix.spec_num_colors(),
        ),
        matrix.order_cost(final(remapping)@) <= matrix.order_cost(old(remapping)@),
        final(remapping)@ != old(remapping)@ ==> matrix.order_cost(final(remapping)@) < matrix.order_cost(
            old(remapping)@,
        ),
{
    let ghost n = matrix.spec_num_colors();
    let num_colors = remapping.len();
    let b_limit = max_dist as usize + 1;
    let ghost lim = b_limit as int;
    let ghost r0 = remapping@;
    // Keep iterating as long as at least two swaps were made
    // When we're down to only one then the chance of any further improvement is practically nil
    let mut swaps: usize = 2;
    while swaps >= 2
        invariant
            matrix.inv(),
            num_colors == n == remapping@.len(),
            n == matrix.spec_num_colors(),
            1 <= n <= 256,
            b_limit == lim == max_dist + 1,
            colors_below(remapping@, n),
            is_permutation(r0, n) ==> is_permutation(remapping@, n),
            matrix.order_cost(remapping@) <= matrix.order_cost(r0),
            remapping@ != r0 ==> matrix.order_cost(remapping@) < matrix.order_cost(r0),
            if swaps >= 2 {
                matrix.swap_search(r0, lim) == matrix.swap_search(remapping@, lim)
            } else {
                matrix.swap_search(r0, lim) == remapping@
            },
        decreases matrix.order_cost(remapping@) + (if swaps >= 2 {
            1int
        } else {
            0
        }),
    {
        let ghost start = remapping@;
        swaps = 0;
        let mut a: usize = 0;
        while a < num_colors - 1
            invariant
                matrix.inv(),
                num_colors == n == remapping@.len(),
                n == matrix.spec_num_colors(),
            n == matrix.spec_num_colors(),
                1 <= n <= 256,
                b_limit == lim == max_dist + 1,
                colors_below(start, n),
                colors_below(remapping@, n),
                is_permutation(r0, n) ==> is_permutation(start, n),
                is_permutation(start, n) ==> is_permutation(remapping@, n),
                matrix.order_cost(start) <= matrix.order_cost(r0),
                a <= num_colors - 1,
                matrix.swap_pass(start, lim, 0, 1, 0) == matrix.swap_pass(remapping@, lim, a as int, a + 1, swaps as int),
                matrix.order_cost(remapping@) + 2 * swaps <= matrix.order_cost(start),
                swaps == 0 ==> remapping@ == start,
                start != r0 ==> matrix.order_cost(start) < matrix.order_cost(r0),
                swaps <= a * 256,
            decreases num_colors - 1 - a,
        {
            let end = if a + b_limit < num_colors {
                a + b_limit
            } else {
                num_colors
            };
            let mut b = a + 1;
            while b < end
                invariant
                    matrix.inv(),
                    num_colors == n == remapping@.len(),
                    n == matrix.spec_num_colors(),
                n == matrix.spec_num_colors(),
            n == matrix.spec_num_colors(),
                    1 <= n <= 256,
                    b_limit == lim == max_dist + 1,
                    colors_below(start, n),
                    colors_below(remapping@, n),
                    is_permutation(start, n) ==> is_permutation(remapping@, n),
                    a < num_colors - 1,
                    end == if a + b_limit < num_colors {
                        a + b_limit
                    } else {
                        num_colors as int
                    },
                    a + 1 <= b,
                    b <= end || b == a + 1,
                    matrix.swap_pass(start, lim, 0, 1, 0) == matrix.swap_pass(remapping@, lim, a as int, b as int, swaps as int),
                    matrix.order_cost(remapping@) + 2 * swaps <= matrix.order_cost(start),
                    swaps == 0 ==> remapping@ == start,
                    swaps <= a * 256 + (b - a - 1),
                decreases end - b,
            {
                let delta = matrix.swap_delta(remapping, a, b);
                if delta < 0 {
                    let ghost prev = remapping@;
                    proof {
                        matrix.lemma_swap_cost(prev, a as int, b as int);
                        if is_permutation(start, n) {
                            lemma_swap_permutation(prev, a as int, b as int, n);
                        }
                    }
                    let va = remapping[a];
                    let vb = remapping[b];
                    remapping.set(a, vb);
                    remapping.set(b, va);
                    assert(remapping@ =~= swapped(prev, a as int, b as int));
                    swaps += 1;
                }
                b += 1;
            }
            a += 1;
        }
        proof {
            matrix.lemma_cost_nonneg(remapping@, n);
        }
    }
}

/// The chains as sequences.
pub open spec fn chain_views(chains: Seq<Vec<usize>>) -> Seq<Seq<usize>> {
    chains.map_values(|c: Vec<usize>| c@)
}

/// The chain that joining the chain `b0` (which ends in `b`) to the chain
/// `a0` (which ends in `a`) gives: the two are joined at those ends.
pub open spec fn joined_chain(a0: Seq<usize>, b0: Seq<usize>, a: usize, b: usize) -> Seq<usize> {
    if a0[0] == a && b0[0] == b {
        backwards(b0) + a0
    } else if a0[0] == a {
        b0 + a0
    } else if b0[0] == b {
        a0 + b0
    } else {
        a0 + backwards(b0)
    }
}

/// The chains and color states after the chain of `b` is joined into the
/// chain of `a`: the chain of `b` is left empty, and its colors name the
/// chain of `a`.
pub open spec fn merged_state(cs: Seq<Seq<usize>>, vx: Seq<(u8, usize)>, a: usize, b: usize) -> (
    Seq<Seq<usize>>,
    Seq<(u8, usize)>,
) {
    let ca = vx[a as int].1;
    let cb = vx[b as int].1;
    let a0 = cs[ca as int];
    let b0 = cs[cb as int];
    (
        cs.update(cb as int, Seq::empty()).update(ca as int, joined_chain(a0, b0, a, b)),
        Seq::new(vx.len(), |w: int| if b0.contains(w as usize) { (vx[w].0, ca) } else { vx[w] }),
    )
}

/// The chains and color states after the edge between colors `i` and `j`:
/// two unvisited colors start a chain; an unvisited color joins the end of
/// a chain at the other; the ends of two chains join the chains; anything
/// else leaves the state as it is.
pub open spec fn edge_step(cs: Seq<Seq<usize>>, vx: Seq<(u8, usize)>, i: usize, j: usize) -> (
    Seq<Seq<usize>>,
    Seq<(u8, usize)>,
) {
    let vi = vx[i as int];
    let vj = vx[j as int];
    if vi.0 == 0 && vj.0 == 0 {
        (cs.push(seq![i, j]), vx.update(i as int, (1u8, cs.len() as usize)).update(j as int, (1u8, cs.len() as usize)))
    } else if vi.0 == 0 && vj.0 == 1 {
        let c = cs[vj.1 as int];
        (
            cs.update(vj.1 as int, if c[0] == j { seq![i] + c } else { c.push(i) }),
            vx.update(i as int, (1u8, vj.1)).update(j as int, (2u8, vj.1)),
        )
    } else if vi.0 == 1 && vj.0 == 0 {
        let c = cs[vi.1 as int];
        (
            cs.update(vi.1 as int, if c[0] == i { seq![j] + c } else { c.push(j) }),
            vx.update(j as int, (1u8, vi.1)).update(i as int, (2u8, vi.1)),
        )
    } else if vi.0 == 1 && vj.0 == 1 && vi.1 != vj.1 {
        let vx1 = vx.update(i as int, (2u8, vi.1)).update(j as int, (2u8, vj.1));
        if vi.1 < vj.1 {
            merged_state(cs, vx1, i, j)
        } else {
            merged_state(cs, vx1, j, i)
        }
    } else {
        (cs, vx)
    }
}

/// The chains and color states after the first `k` edges of `n` colors; the
/// edges after the first chain holds every color change nothing.
pub open spec fn chain_state(edges: Seq<(u8, u8, u32)>, n: int, k: int) -> (Seq<Seq<usize>>, Seq<(u8, usize)>)
    decreases k,
{
    if k <= 0 {
        (Seq::empty(), Seq::new(n as nat, |w: int| (0u8, 0usize)))
    } else {
        let s = chain_state(edges, n, k - 1);
        if chain_complete(s.0, n) {
            s
        } else {
            edge_step(s.0, s.1, edges[k - 1].0 as usize, edges[k - 1].1 as usize)
        }
    }
}

/// Whether the first chain holds all `n` colors.
pub open spec fn chain_complete(cs: Seq<Seq<usize>>, n: int) -> bool {
    cs.len() > 0 && cs[0].len() == n
}

/// The chains one after the other.
pub open spec fn chained(cs: Seq<Seq<usize>>) -> Seq<usize>
    decreases cs.len(),
{
    if cs.len() == 0 {
        Seq::empty()
    } else {
        chained(cs.drop_last()) + cs.last()
    }
}

/// The unvisited colors among `0..v`, in order.
pub open spec fn unvisited(vx: Seq<(u8, usize)>, v: int) -> Seq<usize>
    decreases v,
{
    if v <= 0 {
        Seq::empty()
    } else if vx[v - 1].0 == 0 {
        unvisited(vx, v - 1).push((v - 1) as usize)
    } else {
        unvisited(vx, v - 1)
    }
}

/// The order that Battiato's technique gives: the chains built from the
/// edges, one after the other, then the colors that no chain holds.
pub open spec fn battiato_order(edges: Seq<(u8, u8, u32)>, n: int) -> Seq<usize> {
    let s = chain_state(edges, n, edges.len() as int);
    chained(s.0) + unvisited(s.1, n)
}

/// The state of the chains of Battiato's technique: each color of `0..n` is
/// unvisited (0), an end of a chain (1) or inside one (2), and a visited color
/// stands in the chain that it names, once; the chains hold visited colors only.
pub open spec fn chains_ok(chains: Seq<Vec<usize>>, vx: Seq<(u8, usize)>, n: int) -> bool {
    &&& vx.len() == n
    &&& forall|v: int|
        0 <= v < n ==> (#[trigger] vx[v]).0 <= 2 && (vx[v].0 != 0 ==> vx[v].1 < chains.len() && chains[vx[v].1 as int]@.contains(v as usize))
    &&& forall|c: int, p: int|
        0 <= c < chains.len() && 0 <= p < chains[c]@.len() ==> (#[trigger] chains[c]@[p]) < n && vx[chains[c]@[p] as int].0 != 0
            && vx[chains[c]@[p] as int].1 == c
    &&& forall|c: int| 0 <= c < chains.len() ==> (#[trigger] chains[c]@).no_duplicates()
}

/// Whether `t` holds exactly the elements of `x` and `y`.
pub open spec fn joins(t: Seq<usize>, x: Seq<usize>, y: Seq<usize>) -> bool {
    &&& forall|k: int| 0 <= k < t.len() ==> x.contains(#[trigger] t[k]) || y.contains(t[k])
    &&& forall|k: int| 0 <= k < x.len() ==> t.contains(#[trigger] x[k])
    &&& forall|k: int| 0 <= k < y.len() ==> t.contains(#[trigger] y[k])
}

proof fn lemma_backwards_props(y: Seq<usize>)
    ensures
        backwards(y).len() == y.len(),
        y.no_duplicates() ==> backwards(y).no_duplicates(),
        forall|k: int| 0 <= k < y.len() ==> backwards(y).contains(#[trigger] y[k]),
        forall|k: int| 0 <= k < y.len() ==> y.contains(#[trigger] backwards(y)[k]),
{
    let t = backwards(y);
    assert forall|k: int| 0 <= k < y.len() implies t.contains(#[trigger] y[k]) by {
        assert(t[y.len() - 1 - k] == y[k]);
    }
    assert forall|k: int| 0 <= k < y.len() implies y.contains(#[trigger] t[k]) by {
        assert(t[k] == y[y.len() - 1 - k]);
    }
}

proof fn lemma_joins_concat(x: Seq<usize>, y: Seq<usize>)
    requires
        x.no_duplicates(),
        y.no_duplicates(),
        x.disjoint(y),
    ensures
        joins(x + y, x, y),
        joins(y + x, x, y),
        (x + y).no_duplicates(),
        (y + x).no_duplicates(),
{
    vstd::seq_lib::lemma_no_dup_in_concat(x, y);
    vstd::seq_lib::lemma_no_dup_in_concat(y, x);
    assert forall|k: int| 0 <= k < x.len() implies (x + y).contains(#[trigger] x[k]) by {
        assert((x + y)[k] == x[k]);
    }
    assert forall|k: int| 0 <= k < y.len() implies (x + y).contains(#[trigger] y[k]) by {
        assert((x + y)[x.len() + k] == y[k]);
    }
    assert forall|k: int| 0 <= k < x.len() implies (y + x).contains(#[trigger] x[k]) by {
        assert((y + x)[y.len() + k] == x[k]);
    }
    assert forall|k: int| 0 <= k < y.len() implies (y + x).contains(#[trigger] y[k]) by {
        assert((y + x)[k] == y[k]);
    }
    assert forall|k: int| 0 <= k < (x + y).len() implies x.contains(#[trigger] (x + y)[k]) || y.contains((x + y)[k]) by {
        if k < x.len() {
            assert(x[k] == (x + y)[k]);
        } else {
            assert(y[k - x.len()] == (x + y)[k]);
        }
    }
    assert forall|k: int| 0 <= k < (y + x).len() implies x.contains(#[trigger] (y + x)[k]) || y.contains((y + x)[k]) by {
        if k < y.len() {
            assert(y[k] == (y + x)[k]);
        } else {
            assert(x[k - y.len()] == (y + x)[k]);
        }
    }
}

proof fn lemma_joins_backwards(x: Seq<usize>, y: Seq<usize>, t: Seq<usize>)
    requires
        joins(t, x, backwards(y)),
    ensures
        joins(t, x, y),
{
    lemma_backwards_props(y);
    assert forall|k: int| 0 <= k < t.len() implies x.contains(#[trigger] t[k]) || y.contains(t[k]) by {
        if backwards(y).contains(t[k]) {
            let q = choose|q: int| 0 <= q < backwards(y).len() && backwards(y)[q] == t[k];
            assert(y.contains(backwards(y)[q]));
        }
    }
    assert forall|k: int| 0 <= k < y.len() implies t.contains(#[trigger] y[k]) by {
        assert(backwards(y)[y.len() - 1 - k] == y[k]);
    }
}

/// A copy of the vector.
fn copy_vec(v: &Vec<usize>) -> (r: Vec<usize>)
    ensures
        r@ == v@,
{
    let mut r: Vec<usize> = Vec::new();
    let mut i: usize = 0;
    while i < v.len()
        invariant
            i <= v@.len(),
            r@ == v@.take(i as int),
        decreases v@.len() - i,
    {
        r.push(v[i]);
        i += 1;
        assert(r@ =~= v@.take(i as int));
    }
    assert(v@.take(v@.len() as int) =~= v@);
    r
}

/// `x` with the elements of `y` inserted one by one at position `pos`: the
/// elements of `y` end up backwards there.
fn insert_each_at(x: &mut Vec<usize>, pos: usize, y: &Vec<usize>)
    requires
        pos <= old(x)@.len(),
    ensures
        final(x)@ == old(x)@.take(pos as int) + backwards(y@) + old(x)@.skip(pos as int),
{
    let ghost x0 = x@;
    let mut k: usize = 0;
    while k < y.len()
        invariant
            pos <= x0.len(),
            k <= y@.len(),
            x@ == x0.take(pos as int) + backwards(y@.take(k as int)) + x0.skip(pos as int),
        decreases y@.len() - k,
    {
        x.insert(pos, y[k]);
        k += 1;
        assert(x@ =~= x0.take(pos as int) + backwards(y@.take(k as int)) + x0.skip(pos as int));
    }
    assert(y@.take(y@.len() as int) =~= y@);
}

proof fn lemma_merge_parts(c0: Seq<Vec<usize>>, vx0: Seq<(u8, usize)>, ca: int, cb: int, n: int)
    requires
        chains_ok(c0, vx0, n),
        0 <= ca < c0.len(),
        0 <= cb < c0.len(),
        ca != cb,
    ensures
        joins(c0[ca]@ + c0[cb]@, c0[ca]@, c0[cb]@),
        joins(c0[cb]@ + c0[ca]@, c0[ca]@, c0[cb]@),
        (c0[ca]@ + c0[cb]@).no_duplicates(),
        (c0[cb]@ + c0[ca]@).no_duplicates(),
        joins(c0[ca]@ + backwards(c0[cb]@), c0[ca]@, c0[cb]@),
        joins(backwards(c0[cb]@) + c0[ca]@, c0[ca]@, c0[cb]@),
        (c0[ca]@ + backwards(c0[cb]@)).no_duplicates(),
        (backwards(c0[cb]@) + c0[ca]@).no_duplicates(),
{
    let a0 = c0[ca]@;
    let b0 = c0[cb]@;
    assert(a0.no_duplicates());
    assert(b0.no_duplicates());
    assert(a0.disjoint(b0)) by {
        assert forall|p: int, q: int| 0 <= p < a0.len() && 0 <= q < b0.len() implies a0[p] != b0[q] by {
            assert(vx0[a0[p] as int].1 == ca);
            assert(vx0[b0[q] as int].1 == cb);
        }
    }
    assert(b0.disjoint(a0));
    lemma_backwards_props(b0);
    let rb = backwards(b0);
    assert(a0.disjoint(rb)) by {
        assert forall|p: int, q: int| 0 <= p < a0.len() && 0 <= q < rb.len() implies a0[p] != rb[q] by {
            assert(rb[q] == b0[b0.len() - 1 - q]);
        }
    }
    assert(rb.disjoint(a0));
    lemma_joins_concat(a0, b0);
    lemma_joins_concat(a0, rb);
    lemma_joins_backwards(a0, b0, a0 + rb);
    lemma_joins_backwards(a0, b0, rb + a0);
}

proof fn lemma_merged(
    c0: Seq<Vec<usize>>,
    vx0: Seq<(u8, usize)>,
    c1: Seq<Vec<usize>>,
    vx1: Seq<(u8, usize)>,
    ca: int,
    cb: int,
    t: Seq<usize>,
    n: int,
)
    requires
        chains_ok(c0, vx0, n),
        c0.len() <= usize::MAX,
        n <= usize::MAX,
        0 <= ca < c0.len(),
        0 <= cb < c0.len(),
        ca != cb,
        joins(t, c0[ca]@, c0[cb]@),
        t.no_duplicates(),
        c1.len() == c0.len(),
        c1[ca]@ == t,
        c1[cb]@ == Seq::<usize>::empty(),
        forall|c: int| 0 <= c < c0.len() && c != ca && c != cb ==> #[trigger] c1[c] == c0[c],
        vx1.len() == n,
        forall|v: int|
            0 <= v < n ==> #[trigger] vx1[v] == if c0[cb]@.contains(v as usize) {
                (vx0[v].0, ca as usize)
            } else {
                vx0[v]
            },
    ensures
        chains_ok(c1, vx1, n),
{
    let a0 = c0[ca]@;
    let b0 = c0[cb]@;
    assert forall|v: int| 0 <= v < n implies (#[trigger] vx1[v]).0 <= 2 && (vx1[v].0 != 0 ==> vx1[v].1 < c1.len()
        && c1[vx1[v].1 as int]@.contains(v as usize)) by {
        assert(vx0[v].0 <= 2);
        if vx0[v].0 != 0 {
            if b0.contains(v as usize) {
                let q = choose|q: int| 0 <= q < b0.len() && b0[q] == v as usize;
                assert(t.contains(b0[q]));
            } else if vx0[v].1 == ca {
                let q = choose|q: int| 0 <= q < a0.len() && a0[q] == v as usize;
                assert(t.contains(a0[q]));
            } else if vx0[v].1 == cb {
                assert(c0[cb]@.contains(v as usize));
            } else {
                assert(c1[vx0[v].1 as int] == c0[vx0[v].1 as int]);
            }
        }
    }
    assert forall|c: int, p: int| 0 <= c < c1.len() && 0 <= p < c1[c]@.len() implies (#[trigger] c1[c]@[p]) < n
        && vx1[c1[c]@[p] as int].0 != 0 && vx1[c1[c]@[p] as int].1 == c by {
        if c == ca {
            let e = t[p];
            if b0.contains(e) {
                let q = choose|q: int| 0 <= q < b0.len() && b0[q] == e;
                assert(vx0[b0[q] as int].1 == cb);
            } else {
                let q = choose|q: int| 0 <= q < a0.len() && a0[q] == e;
                assert(vx0[a0[q] as int].1 == ca);
            }
        } else if c != cb {
            assert(c1[c] == c0[c]);
            let e = c0[c]@[p];
            assert(vx0[e as int].1 == c);
            if b0.contains(e) {
                let q = choose|q: int| 0 <= q < b0.len() && b0[q] == e;
                assert(vx0[b0[q] as int].1 == cb);
            }
        }
    }
    assert forall|c: int| 0 <= c < c1.len() implies (#[trigger] c1[c]@).no_duplicates() by {
        if c != ca && c != cb {
            assert(c1[c] == c0[c]);
            assert(c0[c]@.no_duplicates());
        }
    }
}

/// Join the chain that ends in `b` into the chain that ends in `a`, where
/// `a`'s chain comes first.
#[verifier::rlimit(40)]
fn merge_chains(chains: &mut Vec<Vec<usize>>, vx: &mut Vec<(u8, usize)>, a: usize, b: usize, n: usize)
    requires
        chains_ok(old(chains)@, old(vx)@, n as int),
        a < n && b < n,
        old(vx)@[a as int].0 != 0 && old(vx)@[b as int].0 != 0,
        old(vx)@[a as int].1 < old(vx)@[b as int].1,
    ensures
        chains_ok(final(chains)@, final(vx)@, n as int),
        final(chains)@.len() == old(chains)@.len(),
        (chain_views(final(chains)@), final(vx)@) == merged_state(chain_views(old(chains)@), old(vx)@, a, b),
{
    let ghost c0 = chains@;
    let ghost vx0 = vx@;
    let num_chains = chains.len();
    let ca = vx[a].1;
    let cb = vx[b].1;
    proof {
        lemma_merge_parts(c0, vx0, ca as int, cb as int, n as int);
    }
    let chainb = copy_vec(&chains[cb]);
    chains.set(cb, Vec::new());
    let ghost b0 = chainb@;
    let ghost a0 = c0[ca as int]@;
    let mut k: usize = 0;
    while k < chainb.len()
        invariant
            chainb@ == b0,
            cb < c0.len(),
            b0 == c0[cb as int]@,
            b0.no_duplicates(),
            vx@.len() == vx0.len() == n,
            k <= b0.len(),
            forall|v: int|
                0 <= v < n ==> #[trigger] vx@[v] == if b0.take(k as int).contains(v as usize) {
                    (vx0[v].0, ca)
                } else {
                    vx0[v]
                },
            forall|q: int| 0 <= q < b0.len() ==> (#[trigger] b0[q]) < n,
        decreases b0.len() - k,
    {
        let v = chainb[k];
        let old_state = vx[v].0;
        let ghost prev = b0.take(k as int);
        vx.set(v, (old_state, ca));
        k += 1;
        let ghost cur = b0.take(k as int);
        assert(cur =~= prev.push(v));
        assert forall|w: int| 0 <= w < n implies #[trigger] vx@[w] == if cur.contains(w as usize) {
            (vx0[w].0, ca)
        } else {
            vx0[w]
        } by {
            if w != v as int {
                assert(cur.contains(w as usize) == prev.contains(w as usize));
            } else {
                assert(cur[k - 1] == v);
                if prev.contains(v) {
                    let q = choose|q: int| 0 <= q < prev.len() && prev[q] == v;
                    assert(b0[q] == b0[k - 1]);
                }
            }
        }
    }
    assert(b0.take(b0.len() as int) =~= b0);
    let mut chaina = copy_vec(&chains[ca]);
    assert(a0.contains(a));
    assert(b0.contains(b));
    if chaina[0] == a && chainb[0] == b {
        insert_each_at(&mut chaina, 0, &chainb);
        assert(chaina@ =~= backwards(b0) + a0);
    } else if chaina[0] == a {
        let mut joined = copy_vec(&chainb);
        let mut q: usize = 0;
        while q < chaina.len()
            invariant
                chaina@ == a0,
                q <= a0.len(),
                joined@ == b0 + a0.take(q as int),
            decreases a0.len() - q,
        {
            joined.push(chaina[q]);
            q += 1;
            assert(joined@ =~= b0 + a0.take(q as int));
        }
        assert(a0.take(a0.len() as int) =~= a0);
        chaina = joined;
    } else if chainb[0] == b {
        let mut q: usize = 0;
        while q < chainb.len()
            invariant
                chainb@ == b0,
                q <= b0.len(),
                chaina@ == a0 + b0.take(q as int),
            decreases b0.len() - q,
        {
            chaina.push(chainb[q]);
            q += 1;
            assert(chaina@ =~= a0 + b0.take(q as int));
        }
        assert(b0.take(b0.len() as int) =~= b0);
    } else {
        let pos = chaina.len();
        insert_each_at(&mut chaina, pos, &chainb);
        assert(chaina@ =~= a0 + backwards(b0));
    }
    let ghost t = chaina@;
    chains.set(ca, chaina);
    proof {
        lemma_merged(c0, vx0, chains@, vx@, ca as int, cb as int, t, n as int);
        let ms = merged_state(chain_views(c0), vx0, a, b);
        assert(t == joined_chain(a0, b0, a, b));
        assert(chain_views(chains@) =~= ms.0);
        assert(vx@ =~= ms.1);
    }
}

proof fn lemma_extended(
    c0: Seq<Vec<usize>>,
    vx0: Seq<(u8, usize)>,
    c1: Seq<Vec<usize>>,
    vx1: Seq<(u8, usize)>,
    c: int,
    i: int,
    j: int,
    n: int,
)
    requires
        chains_ok(c0, vx0, n),
        c0.len() <= usize::MAX,
        n <= usize::MAX,
        0 <= i < n,
        0 <= j < n,
        i != j,
        vx0[i].0 == 0,
        vx0[j].0 == 1,
        c == vx0[j].1,
        c1.len() == c0.len(),
        c1[c]@ == c0[c]@.insert(0, i as usize) || c1[c]@ == c0[c]@.push(i as usize),
        forall|d: int| 0 <= d < c0.len() && d != c ==> #[trigger] c1[d] == c0[d],
        vx1 == vx0.update(i, (1u8, c as usize)).update(j, (2u8, c as usize)),
    ensures
        chains_ok(c1, vx1, n),
{
    let a0 = c0[c]@;
    let t = c1[c]@;
    assert(!a0.contains(i as usize)) by {
        if a0.contains(i as usize) {
            let q = choose|q: int| 0 <= q < a0.len() && a0[q] == i as usize;
            assert(vx0[a0[q] as int].0 != 0);
        }
    }
    assert forall|e: usize| #[trigger] t.contains(e) <==> (a0.contains(e) || e == i as usize) by {
        if t == a0.insert(0, i as usize) {
            if t.contains(e) {
                let q = choose|q: int| 0 <= q < t.len() && t[q] == e;
                if q > 0 {
                    assert(a0[q - 1] == e);
                }
            }
            if a0.contains(e) {
                let q = choose|q: int| 0 <= q < a0.len() && a0[q] == e;
                assert(t[q + 1] == e);
            }
            assert(t[0] == i as usize);
        } else {
            if t.contains(e) {
                let q = choose|q: int| 0 <= q < t.len() && t[q] == e;
                if q < a0.len() {
                    assert(a0[q] == e);
                }
            }
            if a0.contains(e) {
                let q = choose|q: int| 0 <= q < a0.len() && a0[q] == e;
                assert(t[q] == e);
            }
            assert(t[a0.len() as int] == i as usize);
        }
    }
    assert(t.no_duplicates()) by {
        assert(a0.no_duplicates());
        assert forall|p: int, q: int| 0 <= p < t.len() && 0 <= q < t.len() && p != q implies t[p] != t[q] by {
            if t == a0.insert(0, i as usize) {
                if p > 0 && q > 0 {
                    assert(t[p] == a0[p - 1] && t[q] == a0[q - 1]);
                } else if p == 0 {
                    assert(t[q] == a0[q - 1]);
                } else {
                    assert(t[p] == a0[p - 1]);
                }
            } else {
                if p < a0.len() && q < a0.len() {
                    assert(t[p] == a0[p] && t[q] == a0[q]);
                } else if p == a0.len() {
                    assert(t[q] == a0[q]);
                } else {
                    assert(t[p] == a0[p]);
                }
            }
        }
    }
    assert forall|v: int| 0 <= v < n implies (#[trigger] vx1[v]).0 <= 2 && (vx1[v].0 != 0 ==> vx1[v].1 < c1.len()
        && c1[vx1[v].1 as int]@.contains(v as usize)) by {
        assert(vx0[v].0 <= 2);
        if v == i {
            assert(t.contains(i as usize));
        } else if v == j {
            assert(a0.contains(j as usize));
            assert(t.contains(j as usize));
        } else if vx0[v].0 != 0 {
            let d = vx0[v].1 as int;
            if d == c {
                assert(a0.contains(v as usize));
                assert(t.contains(v as usize));
            } else {
                assert(c1[d] == c0[d]);
            }
        }
    }
    assert forall|d: int, p: int| 0 <= d < c1.len() && 0 <= p < c1[d]@.len() implies (#[trigger] c1[d]@[p]) < n
        && vx1[c1[d]@[p] as int].0 != 0 && vx1[c1[d]@[p] as int].1 == d by {
        let e = c1[d]@[p];
        if d == c {
            assert(t.contains(e));
            if e != i as usize {
                assert(a0.contains(e));
                let q = choose|q: int| 0 <= q < a0.len() && a0[q] == e;
                assert(vx0[a0[q] as int].1 == c);
            }
        } else {
            assert(c1[d] == c0[d]);
            assert(vx0[e as int].0 != 0);
            assert(vx0[e as int].1 == d);
        }
    }
    assert forall|d: int| 0 <= d < c1.len() implies (#[trigger] c1[d]@).no_duplicates() by {
        if d != c {
            assert(c1[d] == c0[d]);
        }
    }
}

/// Join the edge between colors `i` and `j` into the chains.
fn add_edge(chains: &mut Vec<Vec<usize>>, vx: &mut Vec<(u8, usize)>, i: usize, j: usize, n: usize)
    requires
        chains_ok(old(chains)@, old(vx)@, n as int),
        i < j < n,
    ensures
        chains_ok(final(chains)@, final(vx)@, n as int),
        final(chains)@.len() >= 1,
        (chain_views(final(chains)@), final(vx)@) == edge_step(chain_views(old(chains)@), old(vx)@, i, j),
{
    let ghost c0 = chains@;
    let ghost vx0 = vx@;
    let num_chains = chains.len();
    let vi = vx[i];
    let vj = vx[j];
    if vi.0 == 0 && vj.0 == 0 {
        // Two unvisited vertices - create a new chain
        vx.set(i, (1, num_chains));
        vx.set(j, (1, num_chains));
        chains.push(vec![i, j]);
        proof {
            assert(chain_views(chains@) =~= chain_views(c0).push(seq![i, j]));
            let c1 = chains@;
            let vx1 = vx@;
            let t = c1[num_chains as int]@;
            assert(t =~= seq![i, j]);
            assert(t.contains(i) && t.contains(j)) by {
                assert(t[0] == i && t[1] == j);
            }
            assert forall|v: int| 0 <= v < n implies (#[trigger] vx1[v]).0 <= 2 && (vx1[v].0 != 0 ==> vx1[v].1 < c1.len()
                && c1[vx1[v].1 as int]@.contains(v as usize)) by {
                assert(vx0[v].0 <= 2);
                if v != i && v != j && vx0[v].0 != 0 {
                    assert(c1[vx0[v].1 as int] == c0[vx0[v].1 as int]);
                }
            }
            assert forall|d: int, p: int| 0 <= d < c1.len() && 0 <= p < c1[d]@.len() implies (#[trigger] c1[d]@[p]) < n
                && vx1[c1[d]@[p] as int].0 != 0 && vx1[c1[d]@[p] as int].1 == d by {
                if d < num_chains {
                    assert(c1[d] == c0[d]);
                    let e = c0[d]@[p];
                    assert(vx0[e as int].0 != 0);
                } else {
                    assert(p == 0 || p == 1);
                }
            }
            assert forall|d: int| 0 <= d < c1.len() implies (#[trigger] c1[d]@).no_duplicates() by {
                if d < num_chains {
                    assert(c1[d] == c0[d]);
                }
            }
        }
    } else if vi.0 == 0 && vj.0 == 1 {
        // An unvisited vertex connects with an endpoint of an existing chain
        vx.set(i, (1, vj.1));
        vx.set(j, (2, vj.1));
        let mut chain = copy_vec(&chains[vj.1]);
        proof {
            assert(c0[vj.1 as int]@.contains(j));
        }
        let ghost cv = chain@;
        if chain[0] == j {
            chain.insert(0, i);
            assert(chain@ =~= seq![i] + cv);
        } else {
            chain.push(i);
        }
        chains.set(vj.1, chain);
        proof {
            lemma_extended(c0, vx0, chains@, vx@, vj.1 as int, i as int, j as int, n as int);
            assert(chain_views(chains@) =~= edge_step(chain_views(c0), vx0, i, j).0);
        }
    } else if vi.0 == 1 && vj.0 == 0 {
        // An unvisited vertex connects with an endpoint of an existing chain
        vx.set(j, (1, vi.1));
        vx.set(i, (2, vi.1));
        let mut chain = copy_vec(&chains[vi.1]);
        proof {
            assert(c0[vi.1 as int]@.contains(i));
        }
        let ghost cv = chain@;
        if chain[0] == i {
            chain.insert(0, j);
            assert(chain@ =~= seq![j] + cv);
        } else {
            chain.push(j);
        }
        chains.set(vi.1, chain);
        proof {
            assert(chain_views(chains@) =~= edge_step(chain_views(c0), vx0, i, j).0);
            assert(vx@ =~= vx0.update(j as int, (1u8, vi.1)).update(i as int, (2u8, vi.1)));
            lemma_extended(c0, vx0, chains@, vx@, vi.1 as int, j as int, i as int, n as int);
        }
    } else if vi.0 == 1 && vj.0 == 1 && vi.1 != vj.1 {
        // Two endpoints of different chains are connected together
        vx.set(i, (2, vi.1));
        vx.set(j, (2, vj.1));
        proof {
            let vx1 = vx@;
            assert forall|v: int| 0 <= v < n implies (#[trigger] vx1[v]).0 <= 2 && (vx1[v].0 != 0 ==> vx1[v].1 < c0.len()
                && c0[vx1[v].1 as int]@.contains(v as usize)) by {
                assert(vx0[v].0 <= 2);
            }
            assert forall|d: int, p: int| 0 <= d < c0.len() && 0 <= p < c0[d]@.len() implies (#[trigger] c0[d]@[p]) < n
                && vx1[c0[d]@[p] as int].0 != 0 && vx1[c0[d]@[p] as int].1 == d by {
                let e = c0[d]@[p];
                assert(vx0[e as int].0 != 0);
            }
        }
        if vi.1 < vj.1 {
            merge_chains(chains, vx, i, j, n);
        } else {
            merge_chains(chains, vx, j, i, n);
        }
    }
    proof {
        if chains@.len() == 0 {
            assert(vx0[i as int].0 != 0 ==> vx0[i as int].1 < c0.len());
        }
    }
}

proof fn lemma_distinct_cover(r: Seq<usize>, n: int)
    requires
        0 <= n <= usize::MAX,
        r.no_duplicates(),
        forall|k: int| 0 <= k < r.len() ==> #[trigger] r[k] < n,
        forall|b: int| 0 <= b < n ==> #[trigger] has_value(r, b),
    ensures
        is_permutation(r, n),
{
    let ri = r.map_values(|v: usize| v as int);
    assert(ri.no_duplicates()) by {
        assert forall|p: int, q: int| 0 <= p < ri.len() && 0 <= q < ri.len() && p != q implies ri[p] != ri[q] by {
            assert(r[p] != r[q]);
        }
    }
    ri.unique_seq_to_set();
    vstd::set_lib::lemma_int_range(0, n);
    assert(ri.to_set() =~= vstd::set_lib::set_int_range(0, n)) by {
        assert forall|x: int| #[trigger] ri.to_set().contains(x) <==> 0 <= x < n by {
            if ri.to_set().contains(x) {
                let k = choose|k: int| 0 <= k < ri.len() && ri[k] == x;
                assert(r[k] < n);
            }
            if 0 <= x < n {
                assert(has_value(r, x));
                let k = choose|k: int| 0 <= k < r.len() && r[k] == x;
                assert(ri[k] == x);
            }
        }
    }
}

/// Once the first chain holds every color, further edges change nothing.
proof fn lemma_complete_stays(edges: Seq<(u8, u8, u32)>, n: int, k: int, m: int)
    requires
        0 <= k <= m,
        chain_complete(chain_state(edges, n, k).0, n),
    ensures
        chain_state(edges, n, m) == chain_state(edges, n, k),
    decreases m - k,
{
    if m > k {
        lemma_complete_stays(edges, n, k, m - 1);
    }
}

/// Calculate an approximate solution of the Traveling Salesman Problem using the algorithm
/// from "An efficient Re-indexing algorithm for color-mapped images" by Battiato et al
/// https://ieeexplore.ieee.org/document/1344033
fn battiato_reindex(matrix: &CoOccurrenceMatrix) -> (r: Vec<usize>)
    requires
        matrix.inv(),
    ensures
        is_permutation(r@, matrix.spec_num_colors()),
        r@ == battiato_order(matrix.spec_edges(), matrix.spec_num_colors()),
{
    let n = matrix.num_colors;
    let mut chains: Vec<Vec<usize>> = Vec::new();
    // Keep track of the state of each vertex (.0) and it's chain number (.1)
    // 0 = an unvisited vertex (White)
    // 1 = an endpoint of a chain (Red)
    // 2 = part of the middle of a chain (Black)
    let mut vx: Vec<(u8, usize)> = Vec::new();
    let mut v: usize = 0;
    while v < n
        invariant
            v <= n,
            vx@.len() == v,
            forall|w: int| 0 <= w < v ==> #[trigger] vx@[w] == (0u8, 0usize),
        decreases n - v,
    {
        vx.push((0, 0));
        v += 1;
    }
    let ghost edges = matrix.spec_edges();
    proof {
        assert(chain_views(chains@) =~= chain_state(edges, n as int, 0).0);
        assert(vx@ =~= chain_state(edges, n as int, 0).1);
    }
    // Iterate the edges and assemble them into a chain
    let mut k: usize = 0;
    while k < matrix.weighted_edges.len()
        invariant_except_break
            (chain_views(chains@), vx@) == chain_state(edges, n as int, k as int),
            !chain_complete(chain_views(chains@), n as int),
        invariant
            matrix.inv(),
            n == matrix.num_colors,
            edges == matrix.spec_edges(),
            chains_ok(chains@, vx@, n as int),
            k <= edges.len(),
        ensures
            (chain_views(chains@), vx@) == chain_state(edges, n as int, edges.len() as int),
        decreases matrix.weighted_edges@.len() - k,
    {
        let (i, j, _) = matrix.weighted_edges[k];
        assert(edge_ok(matrix.weighted_edges@[k as int], n as int));
        add_edge(&mut chains, &mut vx, i as usize, j as usize, n);
        assert((chain_views(chains@), vx@) == chain_state(edges, n as int, k + 1));
        if chains[0].len() == n {
            proof {
                assert(chain_views(chains@)[0] == chains@[0]@);
                lemma_complete_stays(edges, n as int, k + 1, edges.len() as int);
            }
            break;
        }
        k += 1;
    }
    let ghost views = chain_views(chains@);
    // Since zero-weight edges are skipped we may not have a complete chain yet.
    // Join all remaining chains and add any unvisited vertices to complete the remapping.
    let mut r: Vec<usize> = Vec::new();
    let mut c: usize = 0;
    while c < chains.len()
        invariant
            chains_ok(chains@, vx@, n as int),
            views == chain_views(chains@),
            r@ == chained(views.take(c as int)),
            c <= chains@.len(),
            r@.no_duplicates(),
            forall|q: int|
                0 <= q < r@.len() ==> #[trigger] r@[q] < n && vx@[r@[q] as int].0 != 0 && vx@[r@[q] as int].1 < c,
            forall|d: int, p: int| 0 <= d < c && 0 <= p < chains@[d]@.len() ==> r@.contains(#[trigger] chains@[d]@[p]),
        decreases chains@.len() - c,
    {
        let ghost base = r@;
        let mut p: usize = 0;
        while p < chains[c].len()
            invariant
                chains_ok(chains@, vx@, n as int),
                views == chain_views(chains@),
                base == chained(views.take(c as int)),
                c < chains@.len(),
                p <= chains@[c as int]@.len(),
                r@.no_duplicates(),
                r@ == base + chains@[c as int]@.take(p as int),
                forall|q: int|
                    0 <= q < base.len() ==> #[trigger] base[q] < n && vx@[base[q] as int].0 != 0 && vx@[base[q] as int].1
                        < c,
                forall|d: int, p2: int| 0 <= d < c && 0 <= p2 < chains@[d]@.len() ==> r@.contains(#[trigger] chains@[d]@[p2]),
            decreases chains@[c as int]@.len() - p,
        {
            let e = chains[c][p];
            let ghost prev = r@;
            proof {
                let ch = chains@[c as int]@;
                assert(ch[p as int] == e);
                assert forall|q: int| 0 <= q < prev.len() implies prev[q] != e by {
                    if q < base.len() {
                        assert(vx@[e as int].1 == c);
                    } else {
                        assert(prev[q] == ch[q - base.len()]);
                        assert(ch.no_duplicates());
                    }
                }
            }
            r.push(e);
            p += 1;
            proof {
                assert(r@ =~= base + chains@[c as int]@.take(p as int));
                assert forall|d: int, p2: int| 0 <= d < c && 0 <= p2 < chains@[d]@.len() implies r@.contains(
                    #[trigger] chains@[d]@[p2],
                ) by {
                    let x = chains@[d]@[p2];
                    assert(prev.contains(x));
                    let q = choose|q: int| 0 <= q < prev.len() && prev[q] == x;
                    assert(r@[q] == x);
                }
            }
        }
        proof {
            let ch = chains@[c as int]@;
            assert(ch.take(ch.len() as int) =~= ch);
            assert(views.take(c + 1).drop_last() =~= views.take(c as int));
            assert(views.take(c + 1).last() == ch);
            assert forall|q: int| 0 <= q < r@.len() implies #[trigger] r@[q] < n && vx@[r@[q] as int].0 != 0 && vx@[r@[q]
                as int].1 < c + 1 by {
                if q >= base.len() {
                    assert(r@[q] == ch[q - base.len()]);
                }
            }
            assert forall|d: int, p2: int| 0 <= d < c + 1 && 0 <= p2 < chains@[d]@.len() implies r@.contains(
                #[trigger] chains@[d]@[p2],
            ) by {
                if d == c {
                    assert(r@[base.len() + p2] == ch[p2]);
                }
            }
        }
        c += 1;
    }
    let ghost chain_part = r@;
    proof {
        assert(views.take(views.len() as int) =~= views);
    }
    let mut v: usize = 0;
    while v < n
        invariant
            chains_ok(chains@, vx@, n as int),
            r@ == chain_part + unvisited(vx@, v as int),
            v <= n,
            r@.no_duplicates(),
            chain_part.len() <= r@.len(),
            forall|q: int| 0 <= q < chain_part.len() ==> #[trigger] r@[q] == chain_part[q],
            forall|q: int| 0 <= q < chain_part.len() ==> #[trigger] chain_part[q] < n && vx@[chain_part[q] as int].0 != 0,
            forall|q: int| chain_part.len() <= q < r@.len() ==> #[trigger] r@[q] < v && vx@[r@[q] as int].0 == 0,
            forall|d: int, p: int| 0 <= d < chains@.len() && 0 <= p < chains@[d]@.len() ==> chain_part.contains(#[trigger] chains@[d]@[p]),
            forall|w: int| 0 <= w < v && vx@[w].0 == 0 ==> #[trigger] has_value(r@, w),
        decreases n - v,
    {
        if vx[v].0 == 0 {
            let ghost prev = r@;
            proof {
                assert forall|q: int| 0 <= q < prev.len() implies prev[q] != v by {
                    if q < chain_part.len() {
                        assert(prev[q] == chain_part[q]);
                    }
                }
            }
            r.push(v);
            proof {
                assert(r@ =~= chain_part + unvisited(vx@, v + 1));
                assert(r@[prev.len() as int] == v);
                assert forall|w: int| 0 <= w < v + 1 && vx@[w].0 == 0 implies #[trigger] has_value(r@, w) by {
                    if w < v {
                        assert(has_value(prev, w));
                        let q = choose|q: int| 0 <= q < prev.len() && prev[q] == w;
                        assert(r@[q] == w);
                    }
                }
            }
        }
        v += 1;
    }
    proof {
        assert forall|q: int| 0 <= q < r@.len() implies #[trigger] r@[q] < n by {
            if q < chain_part.len() {
                assert(r@[q] == chain_part[q]);
            }
        }
        assert forall|b: int| 0 <= b < n implies #[trigger] has_value(r@, b) by {
            if vx@[b].0 != 0 {
                let d = vx@[b].1 as int;
                assert(chains@[d]@.contains(b as usize));
                let p = choose|p: int| 0 <= p < chains@[d]@.len() && chains@[d]@[p] == b as usize;
                assert(chain_part.contains(chains@[d]@[p]));
                let q = choose|q: int| 0 <= q < chain_part.len() && chain_part[q] == b as usize;
                assert(r@[q] == b);
            }
        }
        lemma_distinct_cover(r@, n as int);
    }
    r
}

/// Apply a greedy index assignment using the modified version of Zeng's techinque from
/// "A note on Zeng's technique for color reindexing of palette-based images" by Pinho et al
/// https://ieeexplore.ieee.org/document/1261987
fn mzeng_reindex(matrix: &CoOccurrenceMatrix) -> (r: Vec<usize>)
    requires
        matrix.inv(),
        matrix.connected(),
    ensures
        r@ == matrix.zeng(Placement::Ends),
        r@.len() == matrix.spec_num_colors(),
        colors_below(r@, matrix.spec_num_colors()),
        is_permutation(r@, matrix.spec_num_colors()),
        exists|j: int|
            0 <= j < r@.len() - 1 && #[trigger] r@[j] == matrix.spec_edges()[0].0 && r@[j + 1]
                == matrix.spec_edges()[0].1,
{
    proof {
        matrix.lemma_zeng_permutation(Placement::Ends);
        matrix.lemma_mzeng_keeps_heaviest_edge();
    }
    matrix.zeng_reindex(Placement::Ends)
}

/// Apply a different version of Zeng's technique where the best index is inserted at a position
/// minimizing total cost increase, rather than just the ends.
fn ezeng_reindex(matrix: &CoOccurrenceMatrix) -> (r: Vec<usize>)
    requires
        matrix.inv(),
        matrix.connected(),
    ensures
        r@ == matrix.zeng(Placement::Cheapest),
        r@.len() == matrix.spec_num_colors(),
        colors_below(r@, matrix.spec_num_colors()),
        is_permutation(r@, matrix.spec_num_colors()),
{
    proof {
        matrix.lemma_zeng_permutation(Placement::Cheapest);
    }
    matrix.zeng_reindex(Placement::Cheapest)
}

/// A palette reordered by a permutation keeps the color of every pixel.
pub proof fn lemma_reordered_image_keeps_colors(png: PngImage, img: PngImage, order: Seq<usize>, n: int)
    requires
        n <= 256,
        palette_fits(png, n),
        is_permutation(order, n),
        reorder_outcome(Some(img), png, order),
        forall|k: int| 0 <= k < png.data@.len() ==> png.data@[k] < n,
    ensures
        img.data@.len() == png.data@.len(),
        image_palette(img) == reordered_palette(image_palette(png), order),
        forall|k: int|
            0 <= k < png.data@.len() ==> image_palette(img)[#[trigger] img.data@[k] as int] == image_palette(png)[png.data@[k] as int],
{
    lemma_reorder_keeps_colors(image_palette(png), order, png.data@);
}

/// The most popular color comes first in the order, where it covers at
/// least 15% of the image.
proof fn lemma_popular_front(r: Seq<usize>, color: int, count: int, len: int, n: int)
    requires
        is_permutation(r, n),
        0 <= color < n,
        count >= len * 3 / 20,
    ensures
        popular_first(r, color, count, len)[0] == color,
{
    assert(has_value(r, color));
    lemma_index_from_found(r, color, 0);
    let f = index_from(r, color, 0);
    if f >= r.len() / 2 {
        let b = backwards(r);
        assert(rotated_left(b, r.len() - 1 - f)[0] == b[r.len() - 1 - f]);
    } else {
        assert(rotated_left(r, f)[0] == r[f]);
    }
}

/// Sort the colors in the palette using the mzeng technique, returning the sorted image if successful
pub fn sorted_palette_mzeng(png: &PngImage, matrix: &CoOccurrenceMatrix) -> (r: Option<PngImage>)
    requires
        matrix.inv(),
        matrix.connected(),
        palette_fits(*png, matrix.spec_num_colors()),
        4 * png.data@.len() <= u32::MAX,
    ensures
        ({
            let order = matrix.popular_first_order(matrix.zeng(Placement::Ends), png.data@.len() as int);
            &&& reorder_outcome(r, *png, order)
            &&& is_permutation(order, matrix.spec_num_colors())
            &&& matrix.popular_count() >= png.data@.len() * 3 / 20 ==> order[0] == matrix.popular_color()
        }),
{
    let mut remapping = mzeng_reindex(matrix);
    proof {
        matrix.lemma_best_row_range(matrix.spec_num_colors());
        assert(has_value(remapping@, matrix.popular_color()));
        if matrix.popular_count() >= png.data@.len() * 3 / 20 {
            lemma_popular_front(
                remapping@,
                matrix.popular_color(),
                matrix.popular_count(),
                png.data@.len() as int,
                matrix.spec_num_colors(),
            );
        }
    }
    apply_most_popular_color(png, &mut remapping, matrix);
    apply_palette_reorder(png, &remapping)
}

/// Sort the colors in the palette using the ezeng technique, returning the sorted image if successful
pub fn sorted_palette_ezeng(png: &PngImage, matrix: &CoOccurrenceMatrix, max_swap_dist: u8) -> (r: Option<PngImage>)
    requires
        matrix.inv(),
        matrix.connected(),
        palette_fits(*png, matrix.spec_num_colors()),
        4 * png.data@.len() <= u32::MAX,
    ensures
        ({
            let order = matrix.popular_first_order(
                matrix.swap_search(matrix.zeng(Placement::Cheapest), max_swap_dist + 1),
                png.data@.len() as int,
            );
            &&& reorder_outcome(r, *png, order)
            &&& is_permutation(order, matrix.spec_num_colors())
            &&& matrix.popular_count() >= png.data@.len() * 3 / 20 ==> order[0] == matrix.popular_color()
        }),
{
    let mut remapping = ezeng_reindex(matrix);
    // Perform additional optimization with pairwise swaps
    pairwise_swap_search(&mut remapping, matrix, max_swap_dist);
    proof {
        matrix.lemma_best_row_range(matrix.spec_num_colors());
        assert(has_value(remapping@, matrix.popular_color()));
        if matrix.popular_count() >= png.data@.len() * 3 / 20 {
            lemma_popular_front(
                remapping@,
                matrix.popular_color(),
                matrix.popular_count(),
                png.data@.len() as int,
                matrix.spec_num_colors(),
            );
        }
    }
    apply_most_popular_color(png, &mut remapping, matrix);
    apply_palette_reorder(png, &remapping)
}

/// Sort the colors in the palette using the battiato technique, returning the sorted image if successful
pub fn sorted_palette_battiato(png: &PngImage, matrix: &CoOccurrenceMatrix) -> (r: Option<PngImage>)
    requires
        matrix.inv(),
        palette_fits(*png, matrix.spec_num_colors()),
        4 * png.data@.len() <= u32::MAX,
    ensures
        is_permutation(battiato_order(matrix.spec_edges(), matrix.spec_num_colors()), matrix.spec_num_colors()),
        reorder_outcome(
            r,
            *png,
            matrix.popular_first_order(battiato_order(matrix.spec_edges(), matrix.spec_num_colors()), png.data@.len() as int),
        ),
{
    let mut remapping = battiato_reindex(matrix);
    let ghost order = remapping@;
    proof {
        matrix.lemma_best_row_range(matrix.spec_num_colors());
        assert(has_value(order, matrix.popular_color()));
    }
    apply_most_popular_color(png, &mut remapping, matrix);
    apply_palette_reorder(png, &remapping)
}

/// How often color `v` is the first or the last byte of a line of at least
/// two bytes, among the lines `0..k`.
pub open spec fn edge_count(lines: Seq<Seq<u8>>, v: int, k: int) -> int
    decreases k,
{
    if k <= 0 {
        0
    } else {
        let l = lines[k - 1];
        edge_count(lines, v, k - 1) + if l.len() >= 2 {
            (if l[0] == v {
                1int
            } else {
                0int
            }) + (if l.last() == v {
                1int
            } else {
                0int
            })
        } else {
            0
        }
    }
}

/// The last of the values `0..m` with the largest count (0 for `m` of 0 or 1).
pub open spec fn last_max(c: spec_fn(int) -> int, m: int) -> int
    decreases m,
{
    if m <= 1 {
        0
    } else {
        let b = last_max(c, m - 1);
        if c(m - 1) >= c(b) {
            m - 1
        } else {
            b
        }
    }
}

/// How many of the values `0..k` have the count `x`.
pub open spec fn count_equal(c: spec_fn(int) -> int, x: int, k: int) -> int
    decreases k,
{
    if k <= 0 {
        0
    } else {
        count_equal(c, x, k - 1) + if c(k - 1) == x {
            1int
        } else {
            0int
        }
    }
}

/// The most popular color on the image edges, among the first `num_colors`
/// colors: none when another of the 256 byte values is as popular.
pub open spec fn popular_edge(png: PngImage, num_colors: int) -> Option<int> {
    let lines = image_lines(png.ihdr.spec_layout(), png.data@);
    let c = |v: int| edge_count(lines, v, lines.len() as int);
    let m = if num_colors < 256 {
        num_colors
    } else {
        256
    };
    let best = last_max(c, m);
    if count_equal(c, c(best), 256) > 1 {
        None
    } else {
        Some(best)
    }
}

proof fn lemma_edge_count_bound(lines: Seq<Seq<u8>>, v: int, k: int)
    requires
        0 <= k <= lines.len(),
    ensures
        0 <= edge_count(lines, v, k) <= concat(lines.take(k)).len(),
    decreases k,
{
    if k > 0 {
        lemma_edge_count_bound(lines, v, k - 1);
        assert(lines.take(k) =~= lines.take(k - 1).push(lines[k - 1]));
        lemma_concat_push(lines.take(k - 1), lines[k - 1]);
    }
}

proof fn lemma_last_max_range(c: spec_fn(int) -> int, m: int)
    requires
        m >= 1,
    ensures
        0 <= last_max(c, m) < m,
    decreases m,
{
    if m > 1 {
        lemma_last_max_range(c, m - 1);
    }
}

/// Find the most popular color on the image edges (the pixels neighboring the filter bytes)
fn most_popular_edge_color(num_colors: usize, png: &PngImage) -> (r: Option<usize>)
    requires
        png.wf(),
        1 <= num_colors,
        4 * png.data@.len() <= u32::MAX,
    ensures
        r matches Some(v) ==> popular_edge(*png, num_colors as int) == Some(v as int),
        r is None ==> popular_edge(*png, num_colors as int) is None,
{
    let ghost layout = png.ihdr.spec_layout();
    let ghost lines = image_lines(layout, png.data@);
    let ghost c = |v: int| edge_count(lines, v, lines.len() as int);
    let scan = png.scan_lines(false);
    proof {
        lemma_line_bytes(*png, 256);
        assert(lines.take(lines.len() as int) =~= lines);
    }
    let mut counts: Vec<u32> = Vec::new();
    let mut z: usize = 0;
    while z < 256
        invariant
            z <= 256,
            counts@.len() == z,
            forall|v: int| 0 <= v < z ==> counts@[v] == 0,
        decreases 256 - z,
    {
        counts.push(0);
        z += 1;
    }
    let mut k: usize = 0;
    while k < scan.len()
        invariant
            scan@.len() == lines.len() == layout.len(),
            forall|j: int| 0 <= j < layout.len() ==> (#[trigger] scan@[j]).data@ == lines[j],
            concat(lines) == png.data@,
            4 * png.data@.len() <= u32::MAX,
            k <= scan@.len(),
            counts@.len() == 256,
            forall|v: int| 0 <= v < 256 ==> #[trigger] counts@[v] == edge_count(lines, v, k as int),
        decreases scan@.len() - k,
    {
        let line = &scan[k].data;
        let len = line.len();
        proof {
            lemma_concat_take(lines, k as int);
            assert(lines.take(lines.len() as int) =~= lines);
        }
        if len >= 2 {
            let first = line[0] as usize;
            let last = line[len - 1] as usize;
            proof {
                lemma_edge_count_bound(lines, first as int, k as int);
                lemma_edge_count_bound(lines, last as int, k as int);
            }
            let cf = counts[first];
            counts.set(first, cf + 1);
            let cl = counts[last];
            counts.set(last, cl + 1);
        }
        k += 1;
    }
    assert forall|v: int| 0 <= v < 256 implies #[trigger] counts@[v] == c(v) by {}
    let m = if num_colors < 256 {
        num_colors
    } else {
        256
    };
    let mut best: usize = 0;
    let mut best_count = counts[0];
    let mut i: usize = 1;
    while i < m
        invariant
            1 <= i <= m <= 256,
            counts@.len() == 256,
            forall|v: int| 0 <= v < 256 ==> #[trigger] counts@[v] == c(v),
            best == last_max(c, i as int),
            best < i,
            best_count == counts@[best as int],
        decreases m - i,
    {
        if counts[i] >= best_count {
            best = i;
            best_count = counts[i];
        }
        i += 1;
    }
    // Ensure there's a clear winner - return None if multiple colors are tied
    let mut max_equal: usize = 0;
    let mut v: usize = 0;
    while v < 256
        invariant
            v <= 256,
            counts@.len() == 256,
            forall|w: int| 0 <= w < 256 ==> #[trigger] counts@[w] == c(w),
            best_count == c(best as int),
            max_equal == count_equal(c, best_count as int, v as int),
            max_equal <= v,
        decreases 256 - v,
    {
        if counts[v] == best_count {
            max_equal += 1;
        }
        v += 1;
    }
    if max_equal > 1 {
        return None;
    }
    Some(best)
}

/// The sort key of a color: ascending alpha and descending luma. The 7 high
/// bits of alpha come first, then luma, then the low bit of alpha; the luma
/// takes the standard sRGB coefficients.
pub open spec fn luma_key(c: Rgba8) -> int {
    (c.a - c.a % 2) * 262144 + c.a % 2 - c.r * 299 - c.g * 587 - c.b * 114
}

/// Each color's key with its position.
pub open spec fn keyed(p: Seq<Rgba8>) -> Seq<(i32, usize)> {
    Seq::new(p.len(), |i: int| (luma_key(p[i]) as i32, i as usize))
}

/// The key of an entry.
pub open spec fn entry_key(e: (i32, usize)) -> int {
    e.0 as int
}

/// The positions of the entries.
pub open spec fn entry_positions(s: Seq<(i32, usize)>) -> Seq<usize> {
    s.map_values(|e: (i32, usize)| e.1)
}

/// The order of the luma sort: the colors by key, stably; the color `first`,
/// if any, put first before the others are sorted.
pub open spec fn luma_order(p: Seq<Rgba8>, first: Option<int>) -> Seq<usize> {
    match first {
        Some(f) => seq![f as usize] + entry_positions(stable_sorted(keyed(p).remove(f), |e: (i32, usize)| entry_key(e))),
        None => entry_positions(stable_sorted(keyed(p), |e: (i32, usize)| entry_key(e))),
    }
}

/// `slice::sort_by_key` on the entries by their keys: std documents the sort
/// as stable and ascending by key, so the result is the entries in ascending
/// order of key, entries of equal key in their original order.
#[verifier::external_body]
fn sort_entries_by_key(entries: &mut Vec<(i32, usize)>)
    ensures
        final(entries)@ == stable_sorted(old(entries)@, |e: (i32, usize)| entry_key(e)),
{
    entries.sort_by_key(|e| e.0);
}

/// The sort key of a color.
fn color_val(color: Rgba8) -> (v: i32)
    ensures
        v == luma_key(color),
{
    let a = color.a as i32;
    // Put 7 high bits of alpha first, then luma, then low bit of alpha
    // This provides notable improvement in images with a lot of alpha
    (a - a % 2) * 262144 + a % 2
    // These are coefficients for standard sRGB to luma conversion
     - color.r as i32 * 299 - color.g as i32 * 587 - color.b as i32 * 114
}

/// What sorting the palette of `png` by luma gives: for an 8-bit indexed
/// image of more than one color, the reordered image (nothing when the order
/// does not change); nothing for other images.
pub open spec fn sorted_outcome(png: PngImage, r: Option<PngImage>) -> bool {
    match png.ihdr.color_type {
        ColorType::Indexed { palette } => if png.ihdr.bit_depth == BitDepth::Eight && palette@.len() > 1 {
            reorder_outcome(r, png, luma_order(palette@, popular_edge(png, palette@.len() as int)))
        } else {
            r is None
        },
        _ => r is None,
    }
}

/// Attempt to sort the colors in the palette by luma, returning the sorted image if successful
pub fn sorted_palette(png: &PngImage) -> (r: Option<PngImage>)
    requires
        png.wf(),
        4 * png.data@.len() <= u32::MAX,
        png.ihdr.color_type matches ColorType::Indexed { palette } ==> palette@.len() <= 256,
    ensures
        sorted_outcome(*png, r),
{
    if png.ihdr.bit_depth != BitDepth::Eight {
        return None;
    }
    let palette = match &png.ihdr.color_type {
        ColorType::Indexed { palette } => if palette.len() > 1 {
            palette
        } else {
            return None;
        },
        _ => return None,
    };
    let n = palette.len();
    let mut enumerated: Vec<(i32, usize)> = Vec::new();
    let mut i: usize = 0;
    while i < n
        invariant
            n == palette@.len(),
            i <= n,
            enumerated@ == keyed(palette@).take(i as int),
        decreases n - i,
    {
        let key = color_val(palette[i]);
        enumerated.push((key, i));
        i += 1;
        assert(enumerated@ =~= keyed(palette@).take(i as int));
    }
    assert(keyed(palette@).take(n as int) =~= keyed(palette@));
    // Put the most popular edge color first, which can help slightly if the filter bytes are 0
    let keep_first = most_popular_edge_color(n, png);
    let mut first: Option<(i32, usize)> = None;
    if let Some(f) = keep_first {
        proof {
            lemma_last_max_range(
                |v: int| edge_count(image_lines(png.ihdr.spec_layout(), png.data@), v, image_lines(png.ihdr.spec_layout(), png.data@).len() as int),
                if n < 256 { n as int } else { 256 },
            );
        }
        first = Some(enumerated.remove(f));
    }
    let ghost unsorted = enumerated@;
    // Sort the palette
    sort_entries_by_key(&mut enumerated);
    let mut remapping: Vec<usize> = Vec::new();
    if let Some(e) = first {
        remapping.push(e.1);
    }
    let ghost head = remapping@;
    let mut k: usize = 0;
    while k < enumerated.len()
        invariant
            k <= enumerated@.len(),
            remapping@ == head + entry_positions(enumerated@).take(k as int),
        decreases enumerated@.len() - k,
    {
        remapping.push(enumerated[k].1);
        k += 1;
        assert(remapping@ =~= head + entry_positions(enumerated@).take(k as int));
    }
    assert(entry_positions(enumerated@).take(enumerated@.len() as int) =~= entry_positions(enumerated@));
    proof {
        let order = luma_order(palette@, popular_edge(*png, n as int));
        assert(remapping@ =~= order);
        let key = |e: (i32, usize)| entry_key(e);
        let small = |e: (i32, usize)| e.1 < n;
        assert forall|q: int| 0 <= q < unsorted.len() implies small(#[trigger] unsorted[q]) by {
            if first is Some {
                let f = keep_first.unwrap() as int;
                if q < f {
                    assert(unsorted[q] == keyed(palette@)[q]);
                } else {
                    assert(unsorted[q] == keyed(palette@)[q + 1]);
                }
            } else {
                assert(unsorted[q] == keyed(palette@)[q]);
            }
        }
        lemma_sorted_keeps(unsorted, key, small);
        assert forall|x: int| 0 <= x < remapping@.len() implies #[trigger] remapping@[x] < n by {
            if first is Some && x == 0 {
            } else {
                let off = if first is Some { 1int } else { 0int };
                assert(small(enumerated@[x - off]));
            }
        }
    }
    // Extract the new palette and determine if anything changed
    apply_palette_reorder(png, &remapping)
}

#[verifier::external_type_specification]
#[verifier::external_body]
#[verifier::reject_recursive_types(T)]
#[verifier::reject_recursive_types(S)]
pub struct ExIndexSet<T, S>(IndexSet<T, S>);

/// The items of a set of packed colors, in insertion order.
pub uninterp spec fn color_set_items(set: IndexSet<u32>) -> Seq<u32>;

/// `IndexSet::with_capacity`: a new set holds no item.
#[verifier::external_body]
fn new_color_set(capacity: usize) -> (set: IndexSet<u32>)
    ensures
        color_set_items(set) == Seq::<u32>::empty(),
{
    IndexSet::with_capacity(capacity)
}

/// `IndexSet::insert_full`: as its documentation says, an item already in the
/// set stays where it is and its index is returned with `false`; a new item is
/// appended last and its index is returned with `true`.
#[verifier::external_body]
fn color_set_insert_full(set: &mut IndexSet<u32>, value: u32) -> (r: (usize, bool))
    ensures
        color_set_items(*old(set)).contains(value) ==> {
            &&& color_set_items(*final(set)) == color_set_items(*old(set))
            &&& r.0 < color_set_items(*old(set)).len()
            &&& color_set_items(*old(set))[r.0 as int] == value
            &&& !r.1
        },
        !color_set_items(*old(set)).contains(value) ==> {
            &&& color_set_items(*final(set)) == color_set_items(*old(set)).push(value)
            &&& r.0 == color_set_items(*old(set)).len()
            &&& r.1
        },
{
    set.insert_full(value)
}

/// `IndexSet::len`: the number of items.
#[verifier::external_body]
fn color_set_len(set: &IndexSet<u32>) -> (r: usize)
    ensures
        r == color_set_items(*set).len(),
{
    set.len()
}

/// `IndexSet::into_iter`: the items in their order, collected.
#[verifier::external_body]
fn color_set_into_vec(set: IndexSet<u32>) -> (r: Vec<u32>)
    ensures
        r@ == color_set_items(set),
{
    set.into_iter().collect()
}

/// Opaque black, the color of an index beyond the end of the palette.
pub open spec fn black() -> Rgba8 {
    Rgba8 { r: 0, g: 0, b: 0, a: 255 }
}

/// The palette entry of index `i`, black beyond its end.
pub open spec fn palette_entry(p: Seq<Rgba8>, i: int) -> Rgba8 {
    if 0 <= i < p.len() {
        p[i]
    } else {
        black()
    }
}

/// The color as it is kept: with alpha optimisation, every fully
/// transparent color becomes transparent black.
pub open spec fn canonical(c: Rgba8, optimize_alpha: bool) -> Rgba8 {
    if optimize_alpha && c.a == 0 {
        Rgba8 { r: 0, g: 0, b: 0, a: 0 }
    } else {
        c
    }
}

/// The kept color of index `i`, packed.
pub open spec fn kept_color(p: Seq<Rgba8>, i: int, optimize_alpha: bool) -> u32 {
    canonical(palette_entry(p, i), optimize_alpha).spec_packed()
}

/// The distinct kept colors of the indices `0..k` that the data uses, in the
/// order of their first use.
pub open spec fn used_colors(p: Seq<Rgba8>, data: Seq<u8>, optimize_alpha: bool, k: int) -> Seq<u32>
    decreases k,
{
    if k <= 0 {
        Seq::empty()
    } else {
        let s = used_colors(p, data, optimize_alpha, k - 1);
        let c = kept_color(p, k - 1, optimize_alpha);
        if data.contains((k - 1) as u8) && !s.contains(c) {
            s.push(c)
        } else {
            s
        }
    }
}

/// The position of the first `x` in `s` (the length when there is none).
pub open spec fn position_of(s: Seq<u32>, x: u32) -> int
    decreases s.len(),
{
    if s.len() == 0 {
        0
    } else if s.last() == x && !s.drop_last().contains(x) {
        s.len() - 1
    } else if s.drop_last().contains(x) {
        position_of(s.drop_last(), x)
    } else {
        s.len() as int
    }
}

/// The new index of the used index `i`.
pub open spec fn new_index(p: Seq<Rgba8>, data: Seq<u8>, optimize_alpha: bool, i: int) -> int {
    position_of(used_colors(p, data, optimize_alpha, 256), kept_color(p, i, optimize_alpha))
}

/// The palette of packed colors, unpacked.
pub open spec fn unpacked(s: Seq<u32>) -> Seq<Rgba8> {
    s.map_values(|v: u32| Rgba8::spec_unpacked(v))
}

proof fn lemma_used_colors(p: Seq<Rgba8>, data: Seq<u8>, oa: bool, k: int)
    requires
        0 <= k,
    ensures
        used_colors(p, data, oa, k).no_duplicates(),
        used_colors(p, data, oa, k).len() <= k,
    decreases k,
{
    if k > 0 {
        lemma_used_colors(p, data, oa, k - 1);
    }
}

proof fn lemma_used_prefix(p: Seq<Rgba8>, data: Seq<u8>, oa: bool, k: int, m: int)
    requires
        0 <= k <= m,
    ensures
        used_colors(p, data, oa, k).len() <= used_colors(p, data, oa, m).len(),
        forall|q: int|
            0 <= q < used_colors(p, data, oa, k).len() ==> #[trigger] used_colors(p, data, oa, m)[q] == used_colors(
                p,
                data,
                oa,
                k,
            )[q],
    decreases m - k,
{
    if k < m {
        lemma_used_prefix(p, data, oa, k, m - 1);
    }
}

proof fn lemma_position_unique(s: Seq<u32>, x: u32, q: int)
    requires
        s.no_duplicates(),
        0 <= q < s.len(),
        s[q] == x,
    ensures
        position_of(s, x) == q,
    decreases s.len(),
{
    let t = s.drop_last();
    if q == s.len() - 1 {
        if t.contains(x) {
            let j = choose|j: int| 0 <= j < t.len() && t[j] == x;
            assert(s[j] == s[q]);
        }
    } else {
        assert(t[q] == x);
        assert(s.last() != x) by {
            assert(s[s.len() - 1] != s[q]);
        }
        lemma_position_unique(t, x, q);
    }
}

/// Add the color, as it is kept, to the set, and return its index there.
fn add_color_to_set(color: Rgba8, set: &mut IndexSet<u32>, optimize_alpha: bool) -> (r: u8)
    requires
        color_set_items(*old(set)).len() < 256,
    ensures
        ({
            let c = canonical(color, optimize_alpha).spec_packed();
            let items = color_set_items(*old(set));
            &&& color_set_items(*final(set)) == if items.contains(c) {
                items
            } else {
                items.push(c)
            }
            &&& r < color_set_items(*final(set)).len()
            &&& color_set_items(*final(set))[r as int] == c
        }),
{
    let mut color = color;
    // If there are multiple fully transparent entries, reduce them into one
    if optimize_alpha && color.a == 0 {
        color.r = 0;
        color.g = 0;
        color.b = 0;
    }
    let (idx, _) = color_set_insert_full(set, color.packed());
    idx as u8
}

/// Whether the data uses index `i` and gives it a new index.
pub open spec fn moves_index(p: Seq<Rgba8>, data: Seq<u8>, optimize_alpha: bool, i: int) -> bool {
    data.contains(i as u8) && new_index(p, data, optimize_alpha, i) != i
}

/// The image data with each index replaced by its new index.
pub open spec fn condensed_data(p: Seq<Rgba8>, data: Seq<u8>, optimize_alpha: bool) -> Seq<u8> {
    Seq::new(data.len(), |k: int| new_index(p, data, optimize_alpha, data[k] as int) as u8)
}

/// What reducing the palette of `png` gives: for an 8-bit indexed image, the
/// image with only the colors in use (each once, in order of first use), or
/// nothing when that changes nothing; nothing for other images.
pub open spec fn reduced_outcome(png: PngImage, optimize_alpha: bool, r: Option<PngImage>) -> bool {
    match png.ihdr.color_type {
        ColorType::Indexed { palette } => if png.ihdr.bit_depth == BitDepth::Eight {
            let used = used_colors(palette@, png.data@, optimize_alpha, 256);
            let changed = exists|i: int| 0 <= i < 256 && #[trigger] moves_index(palette@, png.data@, optimize_alpha, i);
            if !changed && used.len() == palette@.len() {
                r is None
            } else {
                r matches Some(img) && {
                    &&& img.ihdr.width == png.ihdr.width
                    &&& img.ihdr.height == png.ihdr.height
                    &&& img.ihdr.bit_depth == png.ihdr.bit_depth
                    &&& img.ihdr.interlaced == png.ihdr.interlaced
                    &&& img.ihdr.color_type matches ColorType::Indexed { palette: np }
                    &&& np@ == unpacked(used)
                    &&& img.data@ == condensed_data(palette@, png.data@, optimize_alpha)
                }
            }
        } else {
            r is None
        },
        _ => r is None,
    }
}

/// Attempt to reduce the number of colors in the palette, returning the reduced image if successful
pub fn reduced_palette(png: &PngImage, optimize_alpha: bool) -> (r: Option<PngImage>)
    ensures
        reduced_outcome(*png, optimize_alpha, r),
{
    if png.ihdr.bit_depth != BitDepth::Eight {
        return None;
    }
    let palette = match &png.ihdr.color_type {
        ColorType::Indexed { palette } => palette,
        _ => return None,
    };
    let ghost pal = palette@;
    let ghost data = png.data@;
    let mut used: Vec<bool> = Vec::new();
    let mut z: usize = 0;
    while z < 256
        invariant
            z <= 256,
            used@.len() == z,
            forall|v: int| 0 <= v < z ==> !used@[v],
        decreases 256 - z,
    {
        used.push(false);
        z += 1;
    }
    let mut k: usize = 0;
    while k < png.data.len()
        invariant
            data == png.data@,
            k <= data.len(),
            used@.len() == 256,
            forall|v: int| 0 <= v < 256 ==> #[trigger] used@[v] == data.take(k as int).contains(v as u8),
        decreases data.len() - k,
    {
        let ghost prev = data.take(k as int);
        used.set(png.data[k] as usize, true);
        k += 1;
        assert(data.take(k as int) =~= prev.push(data[k - 1]));
        assert forall|v: int| 0 <= v < 256 implies #[trigger] used@[v] == data.take(k as int).contains(v as u8) by {
            if v != data[k - 1] as int {
                assert(data.take(k as int).contains(v as u8) == prev.contains(v as u8));
            } else {
                assert(data.take(k as int)[k - 1] == v as u8);
            }
        }
    }
    assert(data.take(data.len() as int) =~= data);
    let opaque_black = Rgba8::new(0, 0, 0, 255);
    let mut condensed = new_color_set(palette.len());
    let mut byte_map: Vec<u8> = Vec::new();
    let mut z: usize = 0;
    while z < 256
        invariant
            z <= 256,
            byte_map@.len() == z,
            forall|v: int| 0 <= v < z ==> byte_map@[v] == 0,
        decreases 256 - z,
    {
        byte_map.push(0);
        z += 1;
    }
    let mut did_change = false;
    let mut i: usize = 0;
    while i < 256
        invariant
            pal == palette@,
            data == png.data@,
            opaque_black == black(),
            i <= 256,
            used@.len() == 256,
            forall|v: int| 0 <= v < 256 ==> #[trigger] used@[v] == data.contains(v as u8),
            byte_map@.len() == 256,
            color_set_items(condensed) == used_colors(pal, data, optimize_alpha, i as int),
            forall|j: int|
                0 <= j < i && data.contains(j as u8) ==> (#[trigger] byte_map@[j]) < used_colors(
                    pal,
                    data,
                    optimize_alpha,
                    i as int,
                ).len() && used_colors(pal, data, optimize_alpha, i as int)[byte_map@[j] as int] == kept_color(
                    pal,
                    j,
                    optimize_alpha,
                ),
            did_change == exists|j: int| 0 <= j < i && data.contains(j as u8) && #[trigger] byte_map@[j] != j,
        decreases 256 - i,
    {
        let ghost before = used_colors(pal, data, optimize_alpha, i as int);
        let ghost after = used_colors(pal, data, optimize_alpha, i + 1);
        let ghost map0 = byte_map@;
        let ghost changed0 = did_change;
        proof {
            lemma_used_colors(pal, data, optimize_alpha, i as int);
            lemma_used_prefix(pal, data, optimize_alpha, i as int, i + 1);
            assert(((i + 1) - 1) as u8 == i as u8);
            assert(after == if data.contains(i as u8) && !before.contains(kept_color(pal, i as int, optimize_alpha)) {
                before.push(kept_color(pal, i as int, optimize_alpha))
            } else {
                before
            });
            assert(used@[i as int] == data.contains(i as u8));
        }
        if used[i] {
            // There are invalid files that use pixel indices beyond palette size
            let color = if i < palette.len() {
                palette[i]
            } else {
                opaque_black
            };
            assert(palette_entry(pal, i as int) == color);
            assert(kept_color(pal, i as int, optimize_alpha) == canonical(color, optimize_alpha).spec_packed());
            let b = add_color_to_set(color, &mut condensed, optimize_alpha);
            byte_map.set(i, b);
            if b as usize != i {
                did_change = true;
            }
        }
        i += 1;
        proof {
            assert(color_set_items(condensed) == after);
            assert forall|j: int| 0 <= j < i && data.contains(j as u8) implies (#[trigger] byte_map@[j]) < after.len()
                && after[byte_map@[j] as int] == kept_color(pal, j, optimize_alpha) by {
                if j < i - 1 {
                    assert(byte_map@[j] == map0[j]);
                }
            }
            assert(did_change == exists|j: int| 0 <= j < i && data.contains(j as u8) && #[trigger] byte_map@[j] != j) by {
                if changed0 {
                    let j = choose|j: int| 0 <= j < i - 1 && data.contains(j as u8) && #[trigger] map0[j] != j;
                    assert(byte_map@[j] == map0[j]);
                } else if did_change {
                    assert(data.contains((i - 1) as u8) && byte_map@[i - 1] != i - 1);
                }
                if exists|j: int| 0 <= j < i && data.contains(j as u8) && #[trigger] byte_map@[j] != j {
                    let j = choose|j: int| 0 <= j < i && data.contains(j as u8) && #[trigger] byte_map@[j] != j;
                    if j < i - 1 {
                        assert(map0[j] == byte_map@[j]);
                    }
                }
            }
        }
    }
    let ghost final_used = used_colors(pal, data, optimize_alpha, 256);
    proof {
        lemma_used_colors(pal, data, optimize_alpha, 256);
        assert forall|j: int| 0 <= j < 256 && data.contains(j as u8) implies byte_map@[j] == new_index(
            pal,
            data,
            optimize_alpha,
            j,
        ) by {
            lemma_position_unique(final_used, kept_color(pal, j, optimize_alpha), byte_map@[j] as int);
        }
        assert(did_change == exists|j: int| 0 <= j < 256 && #[trigger] moves_index(pal, data, optimize_alpha, j)) by {
            if did_change {
                let j = choose|j: int| 0 <= j < 256 && data.contains(j as u8) && #[trigger] byte_map@[j] != j;
                assert(moves_index(pal, data, optimize_alpha, j));
            }
            if exists|j: int| 0 <= j < 256 && #[trigger] moves_index(pal, data, optimize_alpha, j) {
                let j = choose|j: int| 0 <= j < 256 && #[trigger] moves_index(pal, data, optimize_alpha, j);
                assert(data.contains(j as u8) && byte_map@[j] != j);
            }
        }
    }
    let new_data: Vec<u8>;
    if did_change {
        // Reassign data bytes to new indices
        let mut out: Vec<u8> = Vec::new();
        let mut k: usize = 0;
        while k < png.data.len()
            invariant
                data == png.data@,
                k <= data.len(),
                byte_map@.len() == 256,
                forall|j: int| 0 <= j < 256 && data.contains(j as u8) ==> byte_map@[j] == new_index(pal, data, optimize_alpha, j),
                out@ == condensed_data(pal, data, optimize_alpha).take(k as int),
            decreases data.len() - k,
        {
            let b = png.data[k];
            assert(data.contains(b));
            assert(byte_map@[b as int] == new_index(pal, data, optimize_alpha, b as int));
            out.push(byte_map[b as usize]);
            k += 1;
            assert(out@ =~= condensed_data(pal, data, optimize_alpha).take(k as int));
        }
        assert(condensed_data(pal, data, optimize_alpha).take(data.len() as int) =~= condensed_data(pal, data, optimize_alpha));
        new_data = out;
    } else if color_set_len(&condensed) != palette.len() {
        // Data is unchanged but palette is different size
        // Note the new palette could potentially be larger if the original had a missing entry
        let mut out: Vec<u8> = Vec::new();
        let mut k: usize = 0;
        while k < png.data.len()
            invariant
                data == png.data@,
                k <= data.len(),
                !(exists|j: int| 0 <= j < 256 && #[trigger] moves_index(pal, data, optimize_alpha, j)),
                out@ == condensed_data(pal, data, optimize_alpha).take(k as int),
            decreases data.len() - k,
        {
            let b = png.data[k];
            assert(data.contains(b));
            assert(!moves_index(pal, data, optimize_alpha, b as int));
            out.push(b);
            k += 1;
            assert(out@ =~= condensed_data(pal, data, optimize_alpha).take(k as int));
        }
        assert(condensed_data(pal, data, optimize_alpha).take(data.len() as int) =~= condensed_data(pal, data, optimize_alpha));
        new_data = out;
    } else {
        // Nothing has changed
        return None;
    }
    let packed = color_set_into_vec(condensed);
    let mut new_palette: Vec<Rgba8> = Vec::new();
    let mut q: usize = 0;
    while q < packed.len()
        invariant
            q <= packed@.len(),
            new_palette@ == unpacked(packed@.take(q as int)),
        decreases packed@.len() - q,
    {
        new_palette.push(Rgba8::unpacked(packed[q]));
        q += 1;
        assert(new_palette@ =~= unpacked(packed@.take(q as int)));
    }
    assert(packed@.take(packed@.len() as int) =~= packed@);
    Some(
        PngImage {
            ihdr: IhdrData {
                width: png.ihdr.width,
                height: png.ihdr.height,
                color_type: ColorType::Indexed { palette: new_palette },
                bit_depth: png.ihdr.bit_depth,
                interlaced: png.ihdr.interlaced,
            },
            data: new_data,
        },
    )
}

proof fn lemma_used_contains(p: Seq<Rgba8>, data: Seq<u8>, oa: bool, k: int, j: int)
    requires
        0 <= j < k,
        data.contains(j as u8),
    ensures
        used_colors(p, data, oa, k).contains(kept_color(p, j, oa)),
    decreases k,
{
    if j < k - 1 {
        lemma_used_contains(p, data, oa, k - 1, j);
        let s = used_colors(p, data, oa, k - 1);
        let q = choose|q: int| 0 <= q < s.len() && s[q] == kept_color(p, j, oa);
        lemma_used_prefix(p, data, oa, k - 1, k);
        assert(used_colors(p, data, oa, k)[q] == kept_color(p, j, oa));
    } else {
        assert(((k - 1) as u8) == j as u8);
        let s = used_colors(p, data, oa, k - 1);
        if !s.contains(kept_color(p, j, oa)) {
            assert(used_colors(p, data, oa, k)[s.len() as int] == kept_color(p, j, oa));
        } else {
            let q = choose|q: int| 0 <= q < s.len() && s[q] == kept_color(p, j, oa);
            assert(used_colors(p, data, oa, k)[q] == kept_color(p, j, oa));
        }
    }
}

/// Reducing the palette keeps the color of every pixel, as alpha
/// optimisation keeps it: the new palette entry of each new index is the old
/// entry of the old index (black beyond the old palette).
pub proof fn lemma_reduced_keeps_colors(p: Seq<Rgba8>, data: Seq<u8>, optimize_alpha: bool)
    ensures
        forall|k: int|
            0 <= k < data.len() ==> unpacked(used_colors(p, data, optimize_alpha, 256))[#[trigger] condensed_data(
                p,
                data,
                optimize_alpha,
            )[k] as int] == canonical(palette_entry(p, data[k] as int), optimize_alpha),
{
    let used = used_colors(p, data, optimize_alpha, 256);
    lemma_used_colors(p, data, optimize_alpha, 256);
    assert forall|k: int| 0 <= k < data.len() implies unpacked(used)[#[trigger] condensed_data(
        p,
        data,
        optimize_alpha,
    )[k] as int] == canonical(palette_entry(p, data[k] as int), optimize_alpha) by {
        let b = data[k] as int;
        assert(data.contains(b as u8)) by {
            assert(data[k] == b as u8);
        }
        lemma_used_contains(p, data, optimize_alpha, 256, b);
        let c = kept_color(p, b, optimize_alpha);
        let q = choose|q: int| 0 <= q < used.len() && used[q] == c;
        lemma_position_unique(used, c, q);
        assert(condensed_data(p, data, optimize_alpha)[k] as int == q);
        canonical(palette_entry(p, b), optimize_alpha).lemma_unpack_packed();
    }
}


/// A stable sort keeps the elements, each as often as it occurs.
proof fn lemma_sorted_multiset<A>(s: Seq<A>, key: spec_fn(A) -> int)
    ensures
        stable_sorted(s, key).to_multiset() == s.to_multiset(),
    decreases s.len(),
{
    if s.len() > 0 {
        let s0 = s.drop_last();
        lemma_sorted_multiset(s0, key);
        let t = stable_sorted(s0, key);
        lemma_sorted_keeps(s0, key, |a: A| true);
        lemma_first_above_range(t, key, key(s.last()), 0);
        vstd::seq_lib::to_multiset_insert(t, first_above(t, key, key(s.last()), 0), s.last());
        vstd::seq_lib::to_multiset_build(s0, s.last());
        assert(s0.push(s.last()) =~= s);
    } else {
        assert(stable_sorted(s, key) =~= s);
    }
}

/// The entries that the luma sort sorts: every color's, or every color's but
/// that of `first`.
pub open spec fn luma_entries(p: Seq<Rgba8>, first: Option<int>) -> Seq<(i32, usize)> {
    match first {
        Some(f) => keyed(p).remove(f),
        None => keyed(p),
    }
}

proof fn lemma_luma_entries(p: Seq<Rgba8>, first: Option<int>)
    requires
        p.len() <= 256,
        first matches Some(f) ==> 0 <= f < p.len(),
    ensures
        forall|i: int|
            0 <= i < luma_entries(p, first).len() ==> {
                let e = #[trigger] luma_entries(p, first)[i];
                &&& (e.1 as int) < p.len()
                &&& e == keyed(p)[e.1 as int]
                &&& (first matches Some(f) ==> e.1 as int != f)
            },
        luma_entries(p, first).no_duplicates(),
        forall|b: int|
            0 <= b < p.len() && !(first matches Some(f) && b == f) ==> luma_entries(p, first).contains(
                #[trigger] keyed(p)[b],
            ),
{
    let kp = keyed(p);
    let ks = luma_entries(p, first);
    // The position of entry `i` of the entries.
    let at = |i: int|
        match first {
            Some(f) => if i < f {
                i
            } else {
                i + 1
            },
            None => i,
        };
    assert forall|i: int| 0 <= i < ks.len() implies ks[i] == kp[at(i)] && (ks[i].1 as int) == at(i) && 0 <= at(i)
        < p.len() by {
        match first {
            Some(f) => {
                if i < f {
                    assert(ks[i] == kp[i]);
                } else {
                    assert(ks[i] == kp[i + 1]);
                }
            },
            None => {},
        }
    }
    assert forall|i: int, j: int| 0 <= i < ks.len() && 0 <= j < ks.len() && i != j implies ks[i] != ks[j] by {
        assert(ks[i].1 as int == at(i));
        assert(ks[j].1 as int == at(j));
    }
    assert forall|b: int| 0 <= b < p.len() && !(first matches Some(f) && b == f) implies ks.contains(#[trigger] kp[b]) by {
        match first {
            Some(f) => {
                if b < f {
                    assert(ks[b] == kp[b]);
                } else {
                    assert(ks[b - 1] == kp[b]);
                }
            },
            None => {
                assert(ks[b] == kp[b]);
            },
        }
    }
}

/// The luma sort orders the colors by ascending alpha (its 7 high bits) and
/// puts the brighter of two colors of equal alpha first: among the sorted
/// colors (all but the one put first, if any), a color has at most the alpha
/// of a later one, halved, and if their alphas are equal, at least its sRGB
/// luma `299 r + 587 g + 114 b`.
pub proof fn lemma_luma_order_brighter_first(p: Seq<Rgba8>, first: Option<int>, i: int, j: int)
    requires
        p.len() <= 256,
        first matches Some(f) ==> 0 <= f < p.len(),
        (if first is Some { 1int } else { 0int }) <= i < j < p.len(),
    ensures
        p[luma_order(p, first)[i] as int].a / 2 <= p[luma_order(p, first)[j] as int].a / 2,
        p[luma_order(p, first)[i] as int].a == p[luma_order(p, first)[j] as int].a ==> 299 * p[luma_order(p, first)[i] as int].r + 587 * p[luma_order(p, first)[i] as int].g + 114 * p[luma_order(
            p,
            first,
        )[i] as int].b >= 299 * p[luma_order(p, first)[j] as int].r + 587 * p[luma_order(p, first)[j] as int].g + 114
            * p[luma_order(p, first)[j] as int].b,
{
    let kp = keyed(p);
    let ks = luma_entries(p, first);
    let key = |e: (i32, usize)| entry_key(e);
    let t = stable_sorted(ks, key);
    lemma_luma_entries(p, first);
    lemma_sorted_multiset(ks, key);
    lemma_stable_sorted_ascending(ks, key);
    let off = if first is Some { 1int } else { 0int };
    let r = luma_order(p, first);
    let pos = entry_positions(t);
    assert(r.len() == off + pos.len()) by {
        match first {
            Some(f) => {},
            None => {},
        }
    }
    assert(ks.len() == p.len() - off) by {
        match first {
            Some(f) => {},
            None => {},
        }
    }
    let ti = t[i - off];
    let tj = t[j - off];
    assert(r[i] == pos[i - off] && r[j] == pos[j - off]) by {
        match first {
            Some(f) => {
                assert(r == seq![f as usize] + pos);
            },
            None => {},
        }
    }
    assert forall|x: int| 0 <= x < t.len() implies (#[trigger] t[x]) == kp[t[x].1 as int] && (t[x].1 as int) < p.len() by {
        vstd::seq_lib::to_multiset_contains(t, t[x]);
        vstd::seq_lib::to_multiset_contains(ks, t[x]);
        assert(t.contains(t[x]));
        let y = choose|y: int| 0 <= y < ks.len() && ks[y] == t[x];
        assert(ks[y] == t[x]);
    }
    assert(key(ti) <= key(tj));
    let ci = p[ti.1 as int];
    let cj = p[tj.1 as int];
    assert(ti.0 as int == luma_key(ci)) by {
        assert(0 <= ci.a * 262144 <= 255 * 262144) by (nonlinear_arith)
            requires
                0 <= ci.a <= 255,
        ;
    }
    assert(tj.0 as int == luma_key(cj)) by {
        assert(0 <= cj.a * 262144 <= 255 * 262144) by (nonlinear_arith)
            requires
                0 <= cj.a <= 255,
        ;
    }
    assert(ci.a / 2 <= cj.a / 2) by {
        if ci.a / 2 > cj.a / 2 {
            assert(ci.a - ci.a % 2 >= cj.a - cj.a % 2 + 2);
            assert((ci.a - ci.a % 2) * 262144 >= (cj.a - cj.a % 2) * 262144 + 524288) by (nonlinear_arith)
                requires
                    ci.a - ci.a % 2 >= cj.a - cj.a % 2 + 2,
            ;
        }
    }
}

/// The luma order puts every color of the palette at exactly one place.
pub proof fn lemma_luma_order_permutation(p: Seq<Rgba8>, first: Option<int>)
    requires
        p.len() <= 256,
        first matches Some(f) ==> 0 <= f < p.len(),
    ensures
        is_permutation(luma_order(p, first), p.len() as int),
{
    let n = p.len() as int;
    let kp = keyed(p);
    let ks = luma_entries(p, first);
    let key = |e: (i32, usize)| entry_key(e);
    let t = stable_sorted(ks, key);
    lemma_luma_entries(p, first);
    lemma_sorted_multiset(ks, key);
    ks.lemma_multiset_has_no_duplicates();
    t.lemma_multiset_has_no_duplicates_conv();
    vstd::seq_lib::to_multiset_len(t);
    vstd::seq_lib::to_multiset_len(ks);
    assert forall|i: int| 0 <= i < t.len() implies ks.contains(#[trigger] t[i]) by {
        vstd::seq_lib::to_multiset_contains(t, t[i]);
        vstd::seq_lib::to_multiset_contains(ks, t[i]);
        assert(t.contains(t[i]));
    }
    assert forall|i: int| 0 <= i < t.len() implies {
        &&& ((#[trigger] t[i]).1 as int) < n
        &&& t[i] == kp[t[i].1 as int]
        &&& (first matches Some(f) ==> t[i].1 as int != f)
    } by {
        let j = choose|j: int| 0 <= j < ks.len() && ks[j] == t[i];
        assert(ks[j] == t[i]);
    }
    let pos = entry_positions(t);
    assert forall|b: int| 0 <= b < n && !(first matches Some(f) && b == f) implies #[trigger] has_value(pos, b) by {
        assert(ks.contains(kp[b]));
        vstd::seq_lib::to_multiset_contains(ks, kp[b]);
        vstd::seq_lib::to_multiset_contains(t, kp[b]);
        let i = choose|i: int| 0 <= i < t.len() && t[i] == kp[b];
        assert(pos[i] == b);
    }
    let r = luma_order(p, first);
    match first {
        Some(f) => {
            assert(ks.len() == n - 1);
            assert(r == seq![f as usize] + pos);
            assert forall|i: int| 0 <= i < n implies #[trigger] r[i] < n by {
                if i > 0 {
                    assert(r[i] == pos[i - 1]);
                }
            }
            assert forall|i: int, j: int| 0 <= i < j < n implies r[i] != r[j] by {
                assert(r[j] == pos[j - 1]);
                if i > 0 {
                    assert(r[i] == pos[i - 1]);
                    assert(t[i - 1] != t[j - 1]);
                }
            }
            assert forall|b: int| 0 <= b < n implies #[trigger] has_value(r, b) by {
                if b == f {
                    assert(r[0] == b);
                } else {
                    assert(has_value(pos, b));
                    let i = choose|i: int| 0 <= i < pos.len() && pos[i] == b;
                    assert(r[i + 1] == b);
                }
            }
        },
        None => {
            assert(r == pos);
            assert forall|i: int, j: int| 0 <= i < j < n implies r[i] != r[j] by {
                assert(t[i] != t[j]);
            }
            assert forall|b: int| 0 <= b < n implies #[trigger] has_value(r, b) by {
                assert(has_value(pos, b));
                let i = choose|i: int| 0 <= i < pos.len() && pos[i] == b;
                assert(r[i] == b);
            }
        },
    }
}


/// The palette of an indexed image; empty for other color types.
pub open spec fn image_palette(png: PngImage) -> Seq<Rgba8> {
    match png.ihdr.color_type {
        ColorType::Indexed { palette } => palette@,
        _ => Seq::empty(),
    }
}

/// Sorting the palette by luma keeps the color of every pixel.
pub proof fn lemma_sorted_palette_keeps_colors(png: PngImage, img: PngImage)
    requires
        png.ihdr.color_type is Indexed,
        2 <= image_palette(png).len() <= 256,
        forall|k: int| 0 <= k < png.data@.len() ==> png.data@[k] < image_palette(png).len(),
        reorder_outcome(
            Some(img),
            png,
            luma_order(image_palette(png), popular_edge(png, image_palette(png).len() as int)),
        ),
    ensures
        img.data@.len() == png.data@.len(),
        forall|k: int|
            0 <= k < png.data@.len() ==> image_palette(img)[#[trigger] img.data@[k] as int] == image_palette(png)[png.data@[k] as int],
{
    let p = image_palette(png);
    let n = p.len() as int;
    let first = popular_edge(png, n);
    match first {
        Some(f) => {
            let lines = image_lines(png.ihdr.spec_layout(), png.data@);
            let c = |v: int| edge_count(lines, v, lines.len() as int);
            let m = if n < 256 {
                n
            } else {
                256
            };
            lemma_last_max_range(c, m);
        },
        None => {},
    }
    let r = luma_order(p, first);
    lemma_luma_order_permutation(p, first);
    lemma_reorder_keeps_colors(p, r, png.data@);
}


/// Sorting the palette by luma orders the colors by ascending alpha (its 7
/// high bits) and puts the brighter of two colors of equal alpha first: in
/// the sorted palette, past the color put first when the image edges have a
/// clear favourite, a color has at most the alpha of a later one, halved,
/// and if their alphas are equal, at least its sRGB luma `299 r + 587 g +
/// 114 b`.
pub proof fn lemma_sorted_palette_brighter_first(png: PngImage, img: PngImage, i: int, j: int)
    requires
        png.ihdr.color_type is Indexed,
        2 <= image_palette(png).len() <= 256,
        sorted_outcome(png, Some(img)),
        (if popular_edge(png, image_palette(png).len() as int) is Some { 1int } else { 0int }) <= i < j
            < image_palette(img).len(),
    ensures
        image_palette(img)[i].a / 2 <= image_palette(img)[j].a / 2,
        image_palette(img)[i].a == image_palette(img)[j].a ==> 299 * image_palette(img)[i].r + 587 * image_palette(img)[i].g + 114 * image_palette(img)[i].b >= 299
            * image_palette(img)[j].r + 587 * image_palette(img)[j].g + 114 * image_palette(img)[j].b,
{
    let p = image_palette(png);
    let n = p.len() as int;
    let first = popular_edge(png, n);
    match first {
        Some(f) => {
            let lines = image_lines(png.ihdr.spec_layout(), png.data@);
            let c = |v: int| edge_count(lines, v, lines.len() as int);
            let m = if n < 256 {
                n
            } else {
                256
            };
            lemma_last_max_range(c, m);
        },
        None => {},
    }
    let r = luma_order(p, first);
    lemma_luma_order_permutation(p, first);
    assert(image_palette(img) == reordered_palette(p, r));
    lemma_luma_order_brighter_first(p, first, i, j);
}

/// A reduced or reordered palette leaves a well-formed image well formed.
pub proof fn lemma_palette_steps_wf(png: PngImage, optimize_alpha: bool, r: Option<PngImage>, s: Option<PngImage>)
    requires
        png.wf(),
    ensures
        reduced_outcome(png, optimize_alpha, r) && r is Some ==> r->0.wf(),
        sorted_outcome(png, s) && s is Some ==> s->0.wf(),
{
    if reduced_outcome(png, optimize_alpha, r) && r is Some {
        let img = r->0;
        assert(img.ihdr.spec_layout() == png.ihdr.spec_layout());
    }
    if sorted_outcome(png, s) && s is Some {
        let img = s->0;
        assert(img.ihdr.spec_layout() == png.ihdr.spec_layout());
    }
}


} // verus!
