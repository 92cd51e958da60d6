use vstd::prelude::*;

verus! {

/// PNG delta filters
#[derive(Debug, Clone, Copy, PartialEq, Eq, Structural, Hash, PartialOrd, Ord)]
pub enum RowFilter {
    NoFilter,
    Sub,
    Up,
    Average,
    Paeth,
}

impl RowFilter {
    /// The filter type byte that precedes a filtered scanline.
    pub open spec fn spec_code(self) -> u8 {
        match self {
            RowFilter::NoFilter => 0,
            RowFilter::Sub => 1,
            RowFilter::Up => 2,
            RowFilter::Average => 3,
            RowFilter::Paeth => 4,
        }
    }

    /// The filter named by a filter type byte, if any.
    pub open spec fn spec_from_code(value: u8) -> Result<RowFilter, ()> {
        if value == 0 {
            Ok(RowFilter::NoFilter)
        } else if value == 1 {
            Ok(RowFilter::Sub)
        } else if value == 2 {
            Ok(RowFilter::Up)
        } else if value == 3 {
            Ok(RowFilter::Average)
        } else if value == 4 {
            Ok(RowFilter::Paeth)
        } else {
            Err(())
        }
    }

    /// The filter type byte of this filter.
    pub fn code(self) -> (c: u8)
        ensures
            c == self.spec_code(),
    {
        match self {
            RowFilter::NoFilter => 0,
            RowFilter::Sub => 1,
            RowFilter::Up => 2,
            RowFilter::Average => 3,
            RowFilter::Paeth => 4,
        }
    }
}

impl TryFrom<u8> for RowFilter {
    type Error = ();

    fn try_from(value: u8) -> (r: Result<Self, Self::Error>) {
        match value {
            0 => Ok(RowFilter::NoFilter),
            1 => Ok(RowFilter::Sub),
            2 => Ok(RowFilter::Up),
            3 => Ok(RowFilter::Average),
            4 => Ok(RowFilter::Paeth),
            _ => Err(()),
        }
    }
}

impl vstd::std_specs::convert::TryFromSpecImpl<u8> for RowFilter {
    open spec fn obeys_try_from_spec() -> bool {
        true
    }

    open spec fn try_from_spec(v: u8) -> Result<Self, ()> {
        RowFilter::spec_from_code(v)
    }
}

impl RowFilter {
    /// The name of the filter.
    pub open spec fn spec_name(self) -> Seq<char> {
        match self {
            RowFilter::NoFilter => "None"@,
            RowFilter::Sub => "Sub"@,
            RowFilter::Up => "Up"@,
            RowFilter::Average => "Average"@,
            RowFilter::Paeth => "Paeth"@,
        }
    }

    /// The name of the filter.
    pub fn name(self) -> (r: &'static str)
        ensures
            r@ == self.spec_name(),
    {
        match self {
            RowFilter::NoFilter => "None",
            RowFilter::Sub => "Sub",
            RowFilter::Up => "Up",
            RowFilter::Average => "Average",
            RowFilter::Paeth => "Paeth",
        }
    }

    /// Every filter, in the order of their type bytes.
    pub fn all() -> (r: [RowFilter; 5])
        ensures
            forall|k: int| 0 <= k < 5 ==> (#[trigger] r[k]).spec_code() == k,
    {
        [RowFilter::NoFilter, RowFilter::Sub, RowFilter::Up, RowFilter::Average, RowFilter::Paeth]
    }
}

/// Filtering strategy for use in [`Options`][crate::Options]
#[derive(Debug, PartialEq, Eq, PartialOrd, Ord, Clone, Hash)]
pub enum FilterStrategy {
    /// Same filter for all rows
    Basic(RowFilter),
    /// Minimum sum of absolute differences
    MinSum,
    /// Shannon entropy
    Entropy,
    /// Count of distinct bigrams
    Bigrams,
    /// Shannon entropy of bigrams
    BigEnt,
    /// Deflate compression
    Brute {
        /// The number of lines to compress at once
        num_lines: usize,
        /// The compression level to use (1-12)
        level: u8,
    },
    /// Predefined filter for each row
    Predefined(Vec<RowFilter>),
}

impl FilterStrategy {
    /// The basic strategy that uses `RowFilter::NoFilter` for every row.
    pub fn none() -> (s: Self)
        ensures
            s == FilterStrategy::Basic(RowFilter::NoFilter),
    {
        FilterStrategy::Basic(RowFilter::NoFilter)
    }

    /// The basic strategy that uses `RowFilter::Sub` for every row.
    pub fn sub() -> (s: Self)
        ensures
            s == FilterStrategy::Basic(RowFilter::Sub),
    {
        FilterStrategy::Basic(RowFilter::Sub)
    }

    /// The basic strategy that uses `RowFilter::Up` for every row.
    pub fn up() -> (s: Self)
        ensures
            s == FilterStrategy::Basic(RowFilter::Up),
    {
        FilterStrategy::Basic(RowFilter::Up)
    }

    /// The basic strategy that uses `RowFilter::Average` for every row.
    pub fn average() -> (s: Self)
        ensures
            s == FilterStrategy::Basic(RowFilter::Average),
    {
        FilterStrategy::Basic(RowFilter::Average)
    }

    /// The basic strategy that uses `RowFilter::Paeth` for every row.
    pub fn paeth() -> (s: Self)
        ensures
            s == FilterStrategy::Basic(RowFilter::Paeth),
    {
        FilterStrategy::Basic(RowFilter::Paeth)
    }

    /// The name of the strategy.
    pub open spec fn spec_name(&self) -> Seq<char> {
        match self {
            FilterStrategy::Basic(filter) => filter.spec_name(),
            FilterStrategy::MinSum => "MinSum"@,
            FilterStrategy::Entropy => "Entropy"@,
            FilterStrategy::Bigrams => "Bigrams"@,
            FilterStrategy::BigEnt => "BigEnt"@,
            FilterStrategy::Brute { .. } => "Brute"@,
            FilterStrategy::Predefined(_) => "Predefined"@,
        }
    }

    /// The name of the strategy.
    pub fn name(&self) -> (r: &'static str)
        ensures
            r@ == self.spec_name(),
    {
        match self {
            FilterStrategy::Basic(filter) => filter.name(),
            FilterStrategy::MinSum => "MinSum",
            FilterStrategy::Entropy => "Entropy",
            FilterStrategy::Bigrams => "Bigrams",
            FilterStrategy::BigEnt => "BigEnt",
            FilterStrategy::Brute { .. } => "Brute",
            FilterStrategy::Predefined(_) => "Predefined",
        }
    }
}

/// `a - b` modulo 256.
pub open spec fn byte_sub(a: u8, b: u8) -> u8 {
    if a >= b {
        (a - b) as u8
    } else {
        (a - b + 256) as u8
    }
}

/// `a + b` modulo 256.
pub open spec fn byte_add(a: u8, b: u8) -> u8 {
    if a + b < 256 {
        (a + b) as u8
    } else {
        (a + b - 256) as u8
    }
}

/// The rounded-down mean of two bytes.
pub open spec fn byte_avg(a: u8, b: u8) -> u8 {
    ((a + b) / 2) as u8
}

pub open spec fn int_abs(x: int) -> int {
    if x < 0 {
        -x
    } else {
        x
    }
}

/// The Paeth predictor of the PNG specification: of left `a`, above `b` and
/// upper-left `c`, the one closest to `a + b - c`, ties broken in that order.
pub open spec fn paeth(a: u8, b: u8, c: u8) -> u8 {
    let p = a + b - c;
    let pa = int_abs(p - a);
    let pb = int_abs(p - b);
    let pc = int_abs(p - c);
    if pa <= pb && pa <= pc {
        a
    } else if pb <= pc {
        b
    } else {
        c
    }
}

/// Byte `i` of a scanline filtered with `f`, given the raw line `data` and the
/// raw previous line `prev`.
pub open spec fn filter_byte(f: RowFilter, bpp: int, data: Seq<u8>, prev: Seq<u8>, i: int) -> u8 {
    match f {
        RowFilter::NoFilter => data[i],
        RowFilter::Sub => if i < bpp {
            data[i]
        } else {
            byte_sub(data[i], data[i - bpp])
        },
        RowFilter::Up => byte_sub(data[i], prev[i]),
        RowFilter::Average => if i < bpp {
            byte_sub(data[i], prev[i] / 2)
        } else {
            byte_sub(data[i], byte_avg(data[i - bpp], prev[i]))
        },
        RowFilter::Paeth => if i < bpp {
            byte_sub(data[i], prev[i])
        } else {
            byte_sub(data[i], paeth(data[i - bpp], prev[i], prev[i - bpp]))
        },
    }
}

/// A whole filtered scanline: the filter type byte, then each filtered byte.
pub open spec fn filtered_row(f: RowFilter, bpp: int, data: Seq<u8>, prev: Seq<u8>) -> Seq<u8> {
    seq![f.spec_code()] + Seq::new(data.len(), |i: int| filter_byte(f, bpp, data, prev, i))
}

/// Byte `i` of an unfiltered scanline, given the filtered bytes `data`, the
/// already reconstructed previous line `prev` and the bytes `out` of this line
/// reconstructed so far.
pub open spec fn unfilter_byte(
    f: RowFilter,
    bpp: int,
    data: Seq<u8>,
    prev: Seq<u8>,
    out: Seq<u8>,
    i: int,
) -> u8 {
    let has_left = bpp > 0 && i >= bpp;
    match f {
        RowFilter::NoFilter => data[i],
        RowFilter::Sub => if has_left {
            byte_add(data[i], out[i - bpp])
        } else {
            data[i]
        },
        RowFilter::Up => byte_add(data[i], prev[i]),
        RowFilter::Average => if has_left {
            byte_add(data[i], byte_avg(out[i - bpp], prev[i]))
        } else {
            byte_add(data[i], prev[i] / 2)
        },
        RowFilter::Paeth => if has_left {
            byte_add(data[i], paeth(out[i - bpp], prev[i], prev[i - bpp]))
        } else {
            byte_add(data[i], prev[i])
        },
    }
}

/// The first `n` bytes of the unfiltered scanline.
pub open spec fn unfiltered_prefix(
    f: RowFilter,
    bpp: int,
    data: Seq<u8>,
    prev: Seq<u8>,
    n: nat,
) -> Seq<u8>
    decreases n,
{
    if n == 0 {
        seq![]
    } else {
        let s = unfiltered_prefix(f, bpp, data, prev, (n - 1) as nat);
        s.push(unfilter_byte(f, bpp, data, prev, s, n - 1))
    }
}

/// The unfiltered scanline: each byte undoes the filter using the bytes
/// reconstructed before it.
pub open spec fn unfiltered_row(f: RowFilter, bpp: int, data: Seq<u8>, prev: Seq<u8>) -> Seq<u8> {
    unfiltered_prefix(f, bpp, data, prev, data.len())
}

pub proof fn lemma_unfiltered_prefix_len(
    f: RowFilter,
    bpp: int,
    data: Seq<u8>,
    prev: Seq<u8>,
    n: nat,
)
    ensures
        unfiltered_prefix(f, bpp, data, prev, n).len() == n,
    decreases n,
{
    if n > 0 {
        lemma_unfiltered_prefix_len(f, bpp, data, prev, (n - 1) as nat);
    }
}

proof fn lemma_roundtrip_prefix(f: RowFilter, bpp: int, data: Seq<u8>, prev: Seq<u8>, n: nat)
    requires
        bpp >= 1,
        data.len() == prev.len(),
        n <= data.len(),
    ensures
        unfiltered_prefix(
            f,
            bpp,
            filtered_row(f, bpp, data, prev).drop_first(),
            prev,
            n,
        ) =~= data.take(n as int),
    decreases n,
{
    if n > 0 {
        let fd = filtered_row(f, bpp, data, prev).drop_first();
        lemma_roundtrip_prefix(f, bpp, data, prev, (n - 1) as nat);
        let s = unfiltered_prefix(f, bpp, fd, prev, (n - 1) as nat);
        let i = n - 1;
        assert(fd[i] == filter_byte(f, bpp, data, prev, i));
        assert(s =~= data.take(i));
        assert(unfilter_byte(f, bpp, fd, prev, s, i) == data[i]);
        assert(data.take(i).push(data[i]) =~= data.take(n as int));
    }
}

/// Unfiltering undoes filtering: for every filter, every line and every
/// previous line of the same length, and any pixel width of at least one byte,
/// unfiltering the filtered bytes gives back the original line.
pub proof fn lemma_unfilter_filter_roundtrip(f: RowFilter, bpp: int, data: Seq<u8>, prev: Seq<u8>)
    requires
        bpp >= 1,
        data.len() == prev.len(),
    ensures
        unfiltered_row(f, bpp, filtered_row(f, bpp, data, prev).drop_first(), prev) == data,
{
    lemma_roundtrip_prefix(f, bpp, data, prev, data.len());
    assert(data.take(data.len() as int) =~= data);
}

/// The Paeth predictor.
pub fn paeth_predictor(a: u8, b: u8, c: u8) -> (r: u8)
    ensures
        r == paeth(a, b, c),
{
    let p: i32 = a as i32 + b as i32 - c as i32;
    let pa: i32 = if p >= a as i32 {
        p - a as i32
    } else {
        a as i32 - p
    };
    let pb: i32 = if p >= b as i32 {
        p - b as i32
    } else {
        b as i32 - p
    };
    let pc: i32 = if p >= c as i32 {
        p - c as i32
    } else {
        c as i32 - p
    };
    if pa <= pb && pa <= pc {
        a
    } else if pb <= pc {
        b
    } else {
        c
    }
}

/// Byte `k` of pixel `p` in a line of pixels `bpp` bytes wide.
pub open spec fn pixel_byte(d: Seq<u8>, bpp: int, p: int, k: int) -> u8 {
    d[p * bpp + k]
}

/// Whether every alpha byte (offsets `cb..bpp`) of pixel `p` is zero.
pub open spec fn pixel_transparent(d: Seq<u8>, bpp: int, cb: int, p: int) -> bool {
    forall|k: int| cb <= k < bpp ==> #[trigger] pixel_byte(d, bpp, p, k) == 0
}

/// The first pixel from `p` on, below `n`, that is not fully transparent, or
/// pixel 0 when there is none.
pub open spec fn first_opaque_from(d: Seq<u8>, bpp: int, cb: int, n: int, p: int) -> int
    decreases n - p,
{
    if p >= n {
        0
    } else if !pixel_transparent(d, bpp, cb, p) {
        p
    } else {
        first_opaque_from(d, bpp, cb, n, p + 1)
    }
}

pub open spec fn byte_min(a: u8, b: u8) -> u8 {
    if a <= b {
        a
    } else {
        b
    }
}

/// The value that alpha optimisation gives colour byte `j` of the transparent
/// pixel `i`, in the line state `d`, so that filter `f` will predict it.
pub open spec fn alpha_fill(
    f: RowFilter,
    bpp: int,
    cb: int,
    d: Seq<u8>,
    prev: Seq<u8>,
    n: int,
    i: int,
    j: int,
) -> u8 {
    let q = if i == 0 {
        first_opaque_from(d, bpp, cb, n, 0)
    } else {
        i - 1
    };
    match f {
        RowFilter::NoFilter => pixel_byte(d, bpp, i, j),
        RowFilter::Sub => pixel_byte(d, bpp, q, j),
        RowFilter::Up => pixel_byte(prev, bpp, i, j),
        RowFilter::Average => if i == 0 {
            prev[j] / 2
        } else {
            byte_avg(pixel_byte(d, bpp, i - 1, j), pixel_byte(prev, bpp, i, j))
        },
        RowFilter::Paeth => if i == 0 {
            byte_min(pixel_byte(d, bpp, q, j), prev[j])
        } else {
            paeth(
                pixel_byte(d, bpp, i - 1, j),
                pixel_byte(prev, bpp, i, j),
                pixel_byte(prev, bpp, i - 1, j),
            )
        },
    }
}

/// The line after alpha optimisation of pixel `i` alone: if it is fully
/// transparent, its colour bytes are replaced by `alpha_fill`.
pub open spec fn alpha_step(
    f: RowFilter,
    bpp: int,
    cb: int,
    d: Seq<u8>,
    prev: Seq<u8>,
    n: int,
    i: int,
) -> Seq<u8> {
    Seq::new(
        d.len(),
        |x: int|
            if pixel_transparent(d, bpp, cb, i) && i * bpp <= x < i * bpp + cb {
                alpha_fill(f, bpp, cb, d, prev, n, i, x - i * bpp)
            } else {
                d[x]
            },
    )
}

/// The line after alpha optimisation of pixels `0..k`, in order.
pub open spec fn alpha_state(
    f: RowFilter,
    bpp: int,
    cb: int,
    d: Seq<u8>,
    prev: Seq<u8>,
    n: int,
    k: nat,
) -> Seq<u8>
    decreases k,
{
    if k == 0 {
        d
    } else {
        alpha_step(f, bpp, cb, alpha_state(f, bpp, cb, d, prev, n, (k - 1) as nat), prev, n, k - 1)
    }
}

/// The line after alpha optimisation for filter `f`: the colour bytes of fully
/// transparent pixels are set to what `f` predicts, so that they filter to zero.
pub open spec fn optimized_alpha(f: RowFilter, bpp: int, cb: int, d: Seq<u8>, prev: Seq<u8>) -> Seq<u8> {
    if f == RowFilter::NoFilter {
        d
    } else {
        alpha_state(f, bpp, cb, d, prev, d.len() as int / bpp, (d.len() as int / bpp) as nat)
    }
}

proof fn lemma_alpha_state_len(f: RowFilter, bpp: int, cb: int, d: Seq<u8>, prev: Seq<u8>, n: int, k: nat)
    ensures
        alpha_state(f, bpp, cb, d, prev, n, k).len() == d.len(),
    decreases k,
{
    if k > 0 {
        lemma_alpha_state_len(f, bpp, cb, d, prev, n, (k - 1) as nat);
    }
}

/// Alpha optimisation keeps the length of the line.
pub proof fn lemma_optimized_alpha_len(f: RowFilter, bpp: int, cb: int, d: Seq<u8>, prev: Seq<u8>)
    ensures
        optimized_alpha(f, bpp, cb, d, prev).len() == d.len(),
{
    if f != RowFilter::NoFilter {
        lemma_alpha_state_len(f, bpp, cb, d, prev, d.len() as int / bpp, (d.len() as int / bpp) as nat);
    }
}

/// Whether `a` differs from `b` only in colour bytes (offsets `0..cb` of a
/// pixel of `bpp` bytes) of whole pixels that are fully transparent in `b`.
pub open spec fn same_but_transparent(a: Seq<u8>, b: Seq<u8>, bpp: int, cb: int) -> bool {
    &&& a.len() == b.len()
    &&& forall|x: int|
        0 <= x < a.len() && #[trigger] a[x] != b[x] ==> exists|i: int|
            #[trigger] pixel_transparent(b, bpp, cb, i) && 0 <= i && i * bpp <= x < i * bpp + cb && i * bpp + bpp
                <= b.len()
}

pub proof fn lemma_same_trans(a: Seq<u8>, b: Seq<u8>, c: Seq<u8>, bpp: int, cb: int)
    requires
        0 <= cb <= bpp,
        bpp > 0,
        same_but_transparent(a, b, bpp, cb),
        same_but_transparent(b, c, bpp, cb),
    ensures
        same_but_transparent(a, c, bpp, cb),
{
    assert forall|x: int| 0 <= x < a.len() && #[trigger] a[x] != c[x] implies exists|i: int|
        #[trigger] pixel_transparent(c, bpp, cb, i) && 0 <= i && i * bpp <= x < i * bpp + cb && i * bpp + bpp
            <= c.len() by {
        if b[x] != c[x] {
        } else {
            assert(a[x] != b[x]);
            let i = choose|i: int|
                #[trigger] pixel_transparent(b, bpp, cb, i) && 0 <= i && i * bpp <= x < i * bpp + cb && i * bpp + bpp
                    <= b.len();
            assert forall|k: int| cb <= k < bpp implies #[trigger] pixel_byte(c, bpp, i, k) == 0 by {
                let y = i * bpp + k;
                assert(pixel_byte(b, bpp, i, k) == 0);
                if b[y] != c[y] {
                    let i2 = choose|i2: int|
                        #[trigger] pixel_transparent(c, bpp, cb, i2) && 0 <= i2 && i2 * bpp <= y < i2 * bpp + cb
                            && i2 * bpp + bpp <= c.len();
                    if i2 == i {
                    } else {
                        lemma_pixel_offsets(bpp, i2, y - i2 * bpp, i, k);
                    }
                }
            }
            assert(pixel_transparent(c, bpp, cb, i));
        }
    }
}

proof fn lemma_same_step(f: RowFilter, bpp: int, cb: int, d: Seq<u8>, prev: Seq<u8>, n: int, i: int)
    requires
        0 <= i,
        i * bpp + bpp <= d.len(),
    ensures
        same_but_transparent(alpha_step(f, bpp, cb, d, prev, n, i), d, bpp, cb),
{
    let a = alpha_step(f, bpp, cb, d, prev, n, i);
    assert forall|x: int| 0 <= x < a.len() && #[trigger] a[x] != d[x] implies exists|j: int|
        #[trigger] pixel_transparent(d, bpp, cb, j) && 0 <= j && j * bpp <= x < j * bpp + cb && j * bpp + bpp
            <= d.len() by {
        assert(pixel_transparent(d, bpp, cb, i));
    }
}

proof fn lemma_same_state(f: RowFilter, bpp: int, cb: int, d: Seq<u8>, prev: Seq<u8>, n: int, k: nat)
    requires
        0 <= cb <= bpp,
        bpp > 0,
        k <= n,
        n * bpp <= d.len(),
    ensures
        same_but_transparent(alpha_state(f, bpp, cb, d, prev, n, k), d, bpp, cb),
    decreases k,
{
    if k > 0 {
        lemma_same_state(f, bpp, cb, d, prev, n, (k - 1) as nat);
        let s0 = alpha_state(f, bpp, cb, d, prev, n, (k - 1) as nat);
        lemma_alpha_state_len(f, bpp, cb, d, prev, n, (k - 1) as nat);
        assert((k - 1) * bpp + bpp <= n * bpp) by (nonlinear_arith)
            requires
                k <= n,
                bpp > 0,
        ;
        lemma_same_step(f, bpp, cb, s0, prev, n, k - 1);
        lemma_same_trans(alpha_state(f, bpp, cb, d, prev, n, k), s0, d, bpp, cb);
    }
}

/// Alpha optimisation changes only colour bytes of fully transparent pixels.
pub proof fn lemma_optimized_alpha_same(f: RowFilter, bpp: int, cb: int, d: Seq<u8>, prev: Seq<u8>)
    requires
        0 <= cb <= bpp,
        bpp > 0,
    ensures
        same_but_transparent(optimized_alpha(f, bpp, cb, d, prev), d, bpp, cb),
{
    if f != RowFilter::NoFilter {
        let n = d.len() as int / bpp;
        assert(n * bpp <= d.len()) by (nonlinear_arith)
            requires
                n == d.len() as int / bpp,
                bpp > 0,
        ;
        lemma_same_state(f, bpp, cb, d, prev, n, n as nat);
    }
}

proof fn lemma_pixel_offsets(bpp: int, p: int, k: int, i: int, j: int)
    requires
        bpp > 0,
        0 <= k < bpp,
        0 <= j < bpp,
        p != i,
    ensures
        p * bpp + k != i * bpp + j,
{
    if p < i {
        assert(p * bpp + bpp <= i * bpp) by (nonlinear_arith)
            requires
                p < i,
                bpp > 0,
        ;
    } else {
        assert(i * bpp + bpp <= p * bpp) by (nonlinear_arith)
            requires
                i < p,
                bpp > 0,
        ;
    }
}

proof fn lemma_pixel_apart(bpp: int, p: int, k: int, i: int)
    requires
        bpp > 0,
        0 <= k < bpp,
        p != i,
    ensures
        p * bpp + k < i * bpp || p * bpp + k >= i * bpp + bpp,
{
    if p < i {
        assert(p * bpp + bpp <= i * bpp) by (nonlinear_arith)
            requires
                p < i,
                bpp > 0,
        ;
    } else {
        assert(i * bpp + bpp <= p * bpp) by (nonlinear_arith)
            requires
                i < p,
                bpp > 0,
        ;
    }
}

proof fn lemma_first_opaque_range(d: Seq<u8>, bpp: int, cb: int, n: int, p: int)
    requires
        0 <= p,
    ensures
        0 <= first_opaque_from(d, bpp, cb, n, p),
        first_opaque_from(d, bpp, cb, n, p) < n || first_opaque_from(d, bpp, cb, n, p) == 0,
    decreases n - p,
{
    if p < n && pixel_transparent(d, bpp, cb, p) {
        lemma_first_opaque_range(d, bpp, cb, n, p + 1);
    }
}

proof fn lemma_pixel_in_line(bpp: int, len: int, i: int, k: int)
    requires
        bpp > 0,
        len >= 0,
        0 <= i < len / bpp,
        0 <= k < bpp,
    ensures
        0 <= i * bpp + k < len,
        i * bpp + bpp <= len,
        i * bpp + bpp <= (len / bpp) * bpp,
        (i + 1) * bpp == i * bpp + bpp,
        i > 0 ==> (i - 1) * bpp == i * bpp - bpp,
{
    assert((i + 1) * bpp == i * bpp + bpp) by (nonlinear_arith);
    assert(i > 0 ==> (i - 1) * bpp == i * bpp - bpp) by (nonlinear_arith);
    assert(i * bpp + bpp <= (len / bpp) * bpp) by (nonlinear_arith)
        requires
            i < len / bpp,
            bpp > 0,
    ;
    assert((len / bpp) * bpp <= len) by (nonlinear_arith)
        requires
            bpp > 0,
            len >= 0,
    ;
    assert(0 <= i * bpp) by (nonlinear_arith)
        requires
            i >= 0,
            bpp > 0,
    ;
}

impl RowFilter {
    fn filter_byte_at(self, bpp: usize, data: &[u8], prev_line: &[u8], i: usize) -> (r: u8)
        requires
            i < data.len(),
            data.len() == prev_line.len(),
        ensures
            r == filter_byte(self, bpp as int, data@, prev_line@, i as int),
    {
        let cur = data[i];
        match self {
            RowFilter::NoFilter => cur,
            RowFilter::Sub => if i < bpp {
                cur
            } else {
                cur.wrapping_sub(data[i - bpp])
            },
            RowFilter::Up => cur.wrapping_sub(prev_line[i]),
            RowFilter::Average => if i < bpp {
                cur.wrapping_sub(prev_line[i] / 2)
            } else {
                let mean = ((data[i - bpp] as u16 + prev_line[i] as u16) / 2) as u8;
                cur.wrapping_sub(mean)
            },
            RowFilter::Paeth => if i < bpp {
                cur.wrapping_sub(prev_line[i])
            } else {
                cur.wrapping_sub(paeth_predictor(data[i - bpp], prev_line[i], prev_line[i - bpp]))
            },
        }
    }

    /// Append one filtered scanline to `buf`: the filter type byte followed by
    /// the filtered bytes.
    fn filter_bytes(self, bpp: usize, data: &[u8], prev_line: &[u8], buf: &mut Vec<u8>)
        requires
            data.len() >= bpp,
            data.len() == prev_line.len(),
        ensures
            final(buf)@ == old(buf)@ + filtered_row(self, bpp as int, data@, prev_line@),
    {
        let ghost start = buf@;
        buf.push(self.code());
        let n = data.len();
        let mut i: usize = 0;
        while i < n
            invariant
                n == data.len(),
                n == prev_line.len(),
                i <= n,
                buf@.len() == start.len() + i + 1,
                buf@.subrange(0, start.len() as int) == start,
                buf@[start.len() as int] == self.spec_code(),
                forall|k: int|
                    0 <= k < i ==> buf@[start.len() + k + 1] == filter_byte(
                        self,
                        bpp as int,
                        data@,
                        prev_line@,
                        k,
                    ),
            decreases n - i,
        {
            let v = self.filter_byte_at(bpp, data, prev_line, i);
            let ghost b0 = buf@;
            buf.push(v);
            assert(buf@.subrange(0, start.len() as int) =~= b0.subrange(0, start.len() as int));
            i += 1;
        }
        assert(buf@ =~= start + filtered_row(self, bpp as int, data@, prev_line@));
    }

    /// Reverse the filter of one scanline into `buf`.
    pub fn unfilter_line(self, bpp: usize, data: &[u8], prev_line: &[u8], buf: &mut Vec<u8>)
        requires
            data.len() >= bpp,
            data.len() == prev_line.len(),
        ensures
            final(buf)@ == unfiltered_row(self, bpp as int, data@, prev_line@),
    {
        buf.clear();
        let n = data.len();
        let mut i: usize = 0;
        while i < n
            invariant
                n == data.len(),
                n == prev_line.len(),
                i <= n,
                buf@ == unfiltered_prefix(self, bpp as int, data@, prev_line@, i as nat),
            decreases n - i,
        {
            proof {
                lemma_unfiltered_prefix_len(self, bpp as int, data@, prev_line@, i as nat);
            }
            let cur = data[i];
            let has_left = bpp > 0 && i >= bpp;
            let v = match self {
                RowFilter::NoFilter => cur,
                RowFilter::Sub => if has_left {
                    cur.wrapping_add(buf[i - bpp])
                } else {
                    cur
                },
                RowFilter::Up => cur.wrapping_add(prev_line[i]),
                RowFilter::Average => if has_left {
                    let mean = ((buf[i - bpp] as u16 + prev_line[i] as u16) / 2) as u8;
                    cur.wrapping_add(mean)
                } else {
                    cur.wrapping_add(prev_line[i] / 2)
                },
                RowFilter::Paeth => if has_left {
                    cur.wrapping_add(paeth_predictor(buf[i - bpp], prev_line[i], prev_line[i - bpp]))
                } else {
                    cur.wrapping_add(prev_line[i])
                },
            };
            buf.push(v);
            i += 1;
        }
    }
}

fn pixel_is_transparent(data: &[u8], bpp: usize, cb: usize, i: usize, base: usize) -> (r: bool)
    requires
        cb <= bpp,
        base == i * bpp,
        base + bpp <= data.len(),
    ensures
        r == pixel_transparent(data@, bpp as int, cb as int, i as int),
{
    let mut k = cb;
    while k < bpp
        invariant
            cb <= k <= bpp,
            base == i * bpp,
            base + bpp <= data.len(),
            forall|m: int| cb <= m < k ==> #[trigger] pixel_byte(data@, bpp as int, i as int, m) == 0,
        decreases bpp - k,
    {
        if data[base + k] != 0 {
            assert(pixel_byte(data@, bpp as int, i as int, k as int) != 0);
            return false;
        }
        k += 1;
    }
    true
}

fn first_opaque(data: &[u8], bpp: usize, cb: usize, n: usize) -> (r: usize)
    requires
        cb < bpp,
        n == data.len() as int / (bpp as int),
    ensures
        r == first_opaque_from(data@, bpp as int, cb as int, n as int, 0),
{
    let mut p: usize = 0;
    let mut base: usize = 0;
    while p < n
        invariant
            cb < bpp,
            n == data.len() as int / (bpp as int),
            p <= n,
            base == p * bpp,
            first_opaque_from(data@, bpp as int, cb as int, n as int, 0) == first_opaque_from(
                data@,
                bpp as int,
                cb as int,
                n as int,
                p as int,
            ),
        decreases n - p,
    {
        proof {
            lemma_pixel_in_line(bpp as int, data.len() as int, p as int, 0);
        }
        if !pixel_is_transparent(data, bpp, cb, p, base) {
            return p;
        }
        p += 1;
        base += bpp;
    }
    0
}

impl RowFilter {
    /// Append one filtered scanline to `buf`: the filter type byte followed by
    /// the filtered bytes. When `alpha_bytes` is not zero, the last `alpha_bytes`
    /// bytes of each pixel are alpha, and the colour bytes of fully transparent
    /// pixels in `data` are first rewritten to what the filter predicts.
    pub(crate) fn filter_line_onto(
        self,
        bpp: usize,
        data: &mut Vec<u8>,
        prev_line: &[u8],
        buf: &mut Vec<u8>,
        alpha_bytes: usize,
    )
        requires
            old(data).len() >= bpp,
            old(data).len() == prev_line.len(),
            alpha_bytes <= bpp,
        ensures
            final(data)@ == (if alpha_bytes != 0 {
                optimized_alpha(
                    self,
                    bpp as int,
                    bpp - alpha_bytes,
                    old(data)@,
                    prev_line@,
                )
            } else {
                old(data)@
            }),
            final(buf)@ == old(buf)@ + filtered_row(self, bpp as int, final(data)@, prev_line@),
    {
        if alpha_bytes != 0 {
            self.optimize_alpha(bpp, data, prev_line, bpp - alpha_bytes);
        }
        self.filter_bytes(bpp, data.as_slice(), prev_line, buf);
    }

    /// Filter one scanline into `buf`, which it replaces: the filter type
    /// byte followed by the filtered bytes. When `alpha_bytes` is not zero,
    /// the last `alpha_bytes` bytes of each pixel are alpha, and the colour
    /// bytes of fully transparent pixels in `data` are first rewritten to what
    /// the filter predicts.
    pub fn filter_line(
        self,
        bpp: usize,
        data: &mut Vec<u8>,
        prev_line: &[u8],
        buf: &mut Vec<u8>,
        alpha_bytes: usize,
    )
        requires
            old(data).len() >= bpp,
            old(data).len() == prev_line.len(),
            alpha_bytes <= bpp,
        ensures
            final(data)@ == (if alpha_bytes != 0 {
                optimized_alpha(
                    self,
                    bpp as int,
                    bpp - alpha_bytes,
                    old(data)@,
                    prev_line@,
                )
            } else {
                old(data)@
            }),
            final(buf)@ == filtered_row(self, bpp as int, final(data)@, prev_line@),
    {
        buf.clear();
        self.filter_line_onto(bpp, data, prev_line, buf, alpha_bytes);
    }

    /// Set the colour bytes of fully transparent pixels to the values that
    /// this filter predicts for them, so that they filter to zero.
    pub fn optimize_alpha(self, bpp: usize, data: &mut Vec<u8>, prev_line: &[u8], color_bytes: usize)
        requires
            color_bytes < bpp,
            old(data).len() == prev_line.len(),
        ensures
            final(data)@ == optimized_alpha(
                self,
                bpp as int,
                color_bytes as int,
                old(data)@,
                prev_line@,
            ),
            final(data)@.len() == old(data)@.len(),
            forall|p: int, k: int|
                0 <= p < old(data)@.len() as int / (bpp as int) && 0 <= k < bpp && (color_bytes <= k
                    || !pixel_transparent(old(data)@, bpp as int, color_bytes as int, p))
                    ==> #[trigger] pixel_byte(final(data)@, bpp as int, p, k) == pixel_byte(
                    old(data)@,
                    bpp as int,
                    p,
                    k,
                ),
            forall|x: int|
                (old(data)@.len() as int / (bpp as int)) * bpp <= x < old(data)@.len() ==> final(data)@[x]
                    == old(data)@[x],
    {
        if self == RowFilter::NoFilter {
            return ;
        }
        let cb = color_bytes;
        let len = data.len();
        let n = len / bpp;
        let ghost d0 = data@;
        let ghost bi = bpp as int;
        let ghost ci = cb as int;
        let mut i: usize = 0;
        let mut base: usize = 0;
        while i < n
            invariant
                self != RowFilter::NoFilter,
                cb < bpp,
                bi == bpp,
                ci == cb,
                len == d0.len(),
                n == len as int / bi,
                data@.len() == len,
                prev_line@.len() == len,
                i <= n,
                base == i * bpp,
                data@ == alpha_state(self, bi, ci, d0, prev_line@, n as int, i as nat),
                forall|p: int, k: int|
                    0 <= p < n && 0 <= k < bpp && (cb <= k || !pixel_transparent(d0, bi, ci, p)
                        || p >= i) ==> #[trigger] pixel_byte(data@, bi, p, k) == pixel_byte(
                        d0,
                        bi,
                        p,
                        k,
                    ),
                forall|x: int| n * bpp <= x < len ==> data@[x] == d0[x],
            decreases n - i,
        {
            proof {
                lemma_pixel_in_line(bi, len as int, i as int, 0);
            }
            let ghost di = data@;
            assert(forall|p: int, k: int|
                0 <= p < n && 0 <= k < bpp && (cb <= k || !pixel_transparent(d0, bi, ci, p)
                    || p >= i) ==> #[trigger] pixel_byte(di, bi, p, k) == pixel_byte(d0, bi, p, k));
            proof {
                assert forall|k: int| ci <= k < bi implies pixel_byte(di, bi, i as int, k)
                    == pixel_byte(d0, bi, i as int, k) by {}
                assert(pixel_transparent(di, bi, ci, i as int) == pixel_transparent(
                    d0,
                    bi,
                    ci,
                    i as int,
                ));
            }
            if pixel_is_transparent(data.as_slice(), bpp, cb, i, base) {
                let q = if i == 0 {
                    first_opaque(data.as_slice(), bpp, cb, n)
                } else {
                    i - 1
                };
                proof {
                    lemma_first_opaque_range(di, bi, ci, n as int, 0);
                    lemma_pixel_in_line(bi, len as int, q as int, 0);
                }
                let qbase = q * bpp;
                let mut j: usize = 0;
                while j < cb
                    invariant
                        self != RowFilter::NoFilter,
                        cb < bpp,
                        bi == bpp,
                        ci == cb,
                        len == d0.len(),
                        n == len as int / bi,
                        data@.len() == len,
                        prev_line@.len() == len,
                        i < n,
                        base == i * bpp,
                        base + bpp <= len,
                        q < n,
                        qbase == q * bpp,
                        qbase + bpp <= len,
                        i > 0 ==> q == i - 1,
                        i == 0 ==> q == first_opaque_from(di, bi, ci, n as int, 0),
                        i > 0 ==> (i - 1) * bi == base - bpp,
                        pixel_transparent(di, bi, ci, i as int),
                        j <= cb,
                        data@ == Seq::new(
                            len as nat,
                            |x: int|
                                if base <= x < base + j {
                                    alpha_fill(self, bi, ci, di, prev_line@, n as int, i as int, x - base)
                                } else {
                                    di[x]
                                },
                        ),
                    decreases cb - j,
                {
                    proof {
                        if q != i {
                            lemma_pixel_offsets(bi, q as int, j as int, i as int, j as int);
                        }
                    }
                    let v = match self {
                        RowFilter::NoFilter => data[base + j],
                        RowFilter::Sub => data[qbase + j],
                        RowFilter::Up => prev_line[base + j],
                        RowFilter::Average => if i == 0 {
                            prev_line[j] / 2
                        } else {
                            ((data[base - bpp + j] as u16 + prev_line[base + j] as u16) / 2) as u8
                        },
                        RowFilter::Paeth => if i == 0 {
                            let a = data[qbase + j];
                            let b = prev_line[j];
                            if a <= b {
                                a
                            } else {
                                b
                            }
                        } else {
                            paeth_predictor(
                                data[base - bpp + j],
                                prev_line[base + j],
                                prev_line[base - bpp + j],
                            )
                        },
                    };
                    assert(v == alpha_fill(self, bi, ci, di, prev_line@, n as int, i as int, j as int));
                    data[base + j] = v;
                    j += 1;
                }
                assert(data@ =~= alpha_step(self, bi, ci, di, prev_line@, n as int, i as int));
            } else {
                assert(data@ =~= alpha_step(self, bi, ci, di, prev_line@, n as int, i as int));
            }
            proof {
                assert forall|p: int, k: int|
                    0 <= p < n && 0 <= k < bpp && (cb <= k || !pixel_transparent(d0, bi, ci, p)
                        || p >= i + 1) implies #[trigger] pixel_byte(data@, bi, p, k) == pixel_byte(
                    d0,
                    bi,
                    p,
                    k,
                ) by {
                    lemma_pixel_in_line(bi, len as int, p, k);
                    assert(pixel_byte(di, bi, p, k) == pixel_byte(d0, bi, p, k));
                    if p != i {
                        lemma_pixel_apart(bi, p, k, i as int);
                    }
                    assert(data@[p * bi + k] == di[p * bi + k]);
                }
            }
            i += 1;
            base += bpp;
        }
    }
}

} // verus!
