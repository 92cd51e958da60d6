use vstd::prelude::*;

use crate::deflate::deflater::{LevelCompressor, raw_bound, spec_libdeflate_raw};
use crate::filters::FilterStrategy;

verus! {

/// The magnitude of a byte read as a signed `i8`.
pub open spec fn signed_mag(b: u8) -> int {
    if b < 128 {
        b as int
    } else {
        256 - b
    }
}

/// The sum of the magnitudes of the bytes read as signed (the MSAD heuristic
/// of the libpng documentation).
pub open spec fn minsum(s: Seq<u8>) -> int
    decreases s.len(),
{
    if s.len() == 0 {
        0
    } else {
        minsum(s.drop_last()) + signed_mag(s.last())
    }
}

pub open spec fn pow2(k: nat) -> int
    decreases k,
{
    if k == 0 {
        1
    } else {
        2 * pow2((k - 1) as nat)
    }
}

/// `floor(log2(i))` for `i >= 1`.
pub open spec fn floor_log2(i: int) -> nat
    decreases i,
{
    if i < 2 {
        0
    } else {
        1 + floor_log2(i / 2)
    }
}

/// The integer approximation of `i * log2(i)`: `i * floor(log2(i))` plus
/// twice the excess of `i` over `2^floor(log2(i))`.
pub open spec fn ilog2i(i: int) -> int {
    i * floor_log2(i) + 2 * (i - pow2(floor_log2(i)))
}

/// The number of bytes equal to `v` among the first `k` of `s`.
pub open spec fn count_of(s: Seq<u8>, v: int, k: int) -> int
    decreases k,
{
    if k <= 0 {
        0
    } else {
        count_of(s, v, k - 1) + (if s[k - 1] == v {
            1int
        } else {
            0int
        })
    }
}

/// The entropy sum over byte values `0..k`: `ilog2i` of each nonzero count.
pub open spec fn entropy_sum(s: Seq<u8>, k: int) -> int
    decreases k,
{
    if k <= 0 {
        0
    } else {
        entropy_sum(s, k - 1) + (if count_of(s, k - 1, s.len() as int) == 0 {
            0
        } else {
            ilog2i(count_of(s, k - 1, s.len() as int))
        })
    }
}

/// The value of an integer accumulated in 32 bits and read as `i32`.
pub open spec fn wrap_i32(x: int) -> i32 {
    (x % 0x1_0000_0000) as u32 as i32
}

/// The Shannon-entropy score of LodePNG (higher is better).
pub open spec fn entropy_score(s: Seq<u8>) -> i32 {
    wrap_i32(entropy_sum(s, 256))
}

/// The bigram at position `i`: bytes `i` and `i + 1`.
pub open spec fn bigram(s: Seq<u8>, i: int) -> int {
    s[i] * 256 + s[i + 1]
}

/// Whether the bigram at `i` does not occur at an earlier position.
pub open spec fn first_bigram(s: Seq<u8>, i: int) -> bool {
    forall|j: int| 0 <= j < i ==> bigram(s, j) != bigram(s, i)
}

/// Whether bigram `x` occurs at one of the positions `0..k`.
pub open spec fn occurs_before(s: Seq<u8>, x: int, k: int) -> bool {
    exists|j: int| 0 <= j < k && bigram(s, j) == x
}

/// The distinct bigrams among the positions `0..k`, in the order of their
/// first occurrence.
pub open spec fn distinct_list(s: Seq<u8>, k: int) -> Seq<int>
    decreases k,
{
    if k <= 0 {
        Seq::empty()
    } else if first_bigram(s, k - 1) {
        distinct_list(s, k - 1).push(bigram(s, k - 1))
    } else {
        distinct_list(s, k - 1)
    }
}

/// The number of bigram positions of a sequence.
pub open spec fn num_bigrams(s: Seq<u8>) -> int {
    if s.len() < 2 {
        0
    } else {
        s.len() - 1
    }
}

/// The number of distinct bigrams of a sequence.
pub open spec fn distinct_bigrams(s: Seq<u8>) -> int {
    distinct_list(s, num_bigrams(s)).len() as int
}

/// The number of positions among `0..k` holding bigram `b`.
pub open spec fn bigram_count(s: Seq<u8>, b: int, k: int) -> int
    decreases k,
{
    if k <= 0 {
        0
    } else {
        bigram_count(s, b, k - 1) + (if bigram(s, k - 1) == b {
            1int
        } else {
            0int
        })
    }
}

/// The sum of `ilog2i` of the number of occurrences of each of the first `t`
/// bigrams of the list `l`.
pub open spec fn bigent_sum(s: Seq<u8>, l: Seq<int>, t: int) -> int
    decreases t,
{
    if t <= 0 {
        0
    } else {
        bigent_sum(s, l, t - 1) + ilog2i(bigram_count(s, l[t - 1], num_bigrams(s)))
    }
}

/// The bigram-entropy score (higher is better): the entropy sum over the
/// distinct bigrams, in the order of their first occurrence.
pub open spec fn bigent_score(s: Seq<u8>) -> i32 {
    let l = distinct_list(s, num_bigrams(s));
    wrap_i32(bigent_sum(s, l, l.len() as int))
}

/// A table of seen bigrams in which every entry that is set is listed in
/// `touched`.
pub open spec fn bigram_table_ok(seen: Seq<bool>, touched: Seq<u16>) -> bool {
    &&& seen.len() == 0x10000
    &&& forall|x: int|
        0 <= x < 0x10000 && #[trigger] seen[x] ==> exists|t: int|
            0 <= t < touched.len() && touched[t] == x
}

/// A table of bigram counts that is all zeros, with nothing listed as touched.
pub open spec fn count_table_clear(seen: Seq<u64>, touched: Seq<u16>) -> bool {
    &&& seen.len() == 0x10000
    &&& touched.len() == 0
    &&& forall|x: int| 0 <= x < 0x10000 ==> #[trigger] seen[x] == 0
}

/// The state of a heuristic filter strategy while it compares the filters of
/// one scanline.
pub enum StrategyEvaluator {
    /// Minimum sum of absolute differences; the best sum so far
    MinSum { best_size: u128 },
    /// Shannon entropy; the best score so far
    Entropy { best_size: i32 },
    /// Fewest distinct bigrams; a table of bigrams seen, the bigrams set in
    /// it, and the best count so far
    Bigrams { seen: Vec<bool>, touched: Vec<u16>, best_size: usize },
    /// Bigram entropy; a table of bigram counts, the bigrams counted in it,
    /// and the best score so far
    BigEnt { seen: Vec<u64>, touched: Vec<u16>, best_size: i32 },
    /// Compression of the last lines; the number of lines, the compressor,
    /// the number of bytes to compress, and a buffer as long as the best
    /// compressed size so far minus one
    Brute { num_lines: usize, compressor: LevelCompressor, limit: usize, buffer: Vec<u8> },
}

proof fn lemma_floor_log2(i: int, l: nat)
    requires
        pow2(l) <= i < 2 * pow2(l),
    ensures
        floor_log2(i) == l,
    decreases l,
{
    if l > 0 {
        assert(pow2(l) == 2 * pow2((l - 1) as nat));
        lemma_pow2_pos((l - 1) as nat);
        assert(pow2((l - 1) as nat) <= i / 2 < 2 * pow2((l - 1) as nat));
        lemma_floor_log2(i / 2, (l - 1) as nat);
    } else {
        assert(i == 1);
    }
}

proof fn lemma_pow2_pos(k: nat)
    ensures
        pow2(k) >= 1,
    decreases k,
{
    if k > 0 {
        lemma_pow2_pos((k - 1) as nat);
    }
}

/// `ilog2i` of a count.
fn ilog2i_exec(i: u128) -> (r: u128)
    requires
        1 <= i <= u64::MAX,
    ensures
        r == ilog2i(i as int),
{
    let mut log: u128 = 0;
    let mut p: u128 = 1;
    while p * 2 <= i
        invariant
            1 <= i <= u64::MAX,
            p == pow2(log as nat),
            1 <= p <= i,
            log < p,
        decreases i - p,
    {
        p = p * 2;
        log = log + 1;
    }
    proof {
        lemma_floor_log2(i as int, log as nat);
    }
    assert(i * log + 2 * (i - p) <= u128::MAX) by (nonlinear_arith)
        requires
            1 <= i <= u64::MAX,
            log < p,
            p <= i,
    ;
    i * log + 2 * (i - p)
}

/// The bytes of `output` from `offset` on.
pub open spec fn tail(output: Seq<u8>, offset: int) -> Seq<u8> {
    output.subrange(offset, output.len() as int)
}

pub proof fn lemma_minsum_bound(s: Seq<u8>)
    ensures
        0 <= minsum(s) <= 128 * s.len(),
    decreases s.len(),
{
    if s.len() > 0 {
        lemma_minsum_bound(s.drop_last());
    }
}

/// The MSAD sum of the bytes of `output` from `offset` on.
fn minsum_of(output: &[u8], offset: usize) -> (r: u128)
    requires
        offset <= output.len(),
    ensures
        r == minsum(tail(output@, offset as int)),
{
    let ghost seg = tail(output@, offset as int);
    let mut acc: u128 = 0;
    let mut i: usize = offset;
    while i < output.len()
        invariant
            offset <= i <= output.len(),
            seg == tail(output@, offset as int),
            acc == minsum(output@.subrange(offset as int, i as int)),
            acc <= 128 * (i - offset),
        decreases output.len() - i,
    {
        let b = output[i];
        let m: u128 = if b < 128 {
            b as u128
        } else {
            256 - b as u128
        };
        proof {
            assert(output@.subrange(offset as int, i + 1).drop_last() =~= output@.subrange(
                offset as int,
                i as int,
            ));
        }
        acc = acc + m;
        i += 1;
    }
    assert(output@.subrange(offset as int, i as int) =~= seg);
    acc
}

proof fn lemma_floor_log2_pow(i: int)
    requires
        i >= 1,
    ensures
        pow2(floor_log2(i)) <= i,
    decreases i,
{
    if i >= 2 {
        lemma_floor_log2_pow(i / 2);
        assert(pow2(floor_log2(i)) == 2 * pow2(floor_log2(i / 2)));
    }
}

/// The entropy score of the bytes of `output` from `offset` on.
fn entropy_of(output: &[u8], offset: usize) -> (r: i32)
    requires
        offset <= output.len(),
    ensures
        r == entropy_score(tail(output@, offset as int)),
{
    let ghost seg = tail(output@, offset as int);
    let mut hist: Vec<u64> = Vec::new();
    let mut v: usize = 0;
    while v < 256
        invariant
            v <= 256,
            hist@.len() == v,
            forall|x: int| 0 <= x < v ==> #[trigger] hist@[x] == 0,
        decreases 256 - v,
    {
        hist.push(0);
        v += 1;
    }
    let mut i: usize = offset;
    while i < output.len()
        invariant
            offset <= i <= output.len(),
            seg == tail(output@, offset as int),
            hist@.len() == 256,
            forall|x: int| 0 <= x < 256 ==> #[trigger] hist@[x] == count_of(seg, x, i - offset),
            forall|x: int| 0 <= x < 256 ==> #[trigger] hist@[x] <= i - offset,
        decreases output.len() - i,
    {
        let b = output[i] as usize;
        assert(seg[i - offset] == output@[i as int]);
        hist.set(b, hist[b] + 1);
        i += 1;
    }
    assert(i - offset == seg.len());
    let m: u128 = 0x1_0000_0000;
    let mut acc: u128 = 0;
    let mut x: usize = 0;
    while x < 256
        invariant
            x <= 256,
            m == 0x1_0000_0000,
            hist@.len() == 256,
            forall|y: int| 0 <= y < 256 ==> #[trigger] hist@[y] == count_of(seg, y, seg.len() as int),
            acc == entropy_sum(seg, x as int) % (m as int),
        decreases 256 - x,
    {
        let c = hist[x];
        let t: u128 = if c == 0 {
            0
        } else {
            ilog2i_exec(c as u128)
        };
        proof {
            vstd::arithmetic::div_mod::lemma_add_mod_noop(entropy_sum(seg, x as int), t as int, m as int);
            vstd::arithmetic::div_mod::lemma_mod_bound(entropy_sum(seg, x as int), m as int);
        }
        acc = (acc + t % m) % m;
        x += 1;
    }
    proof {
        vstd::arithmetic::div_mod::lemma_mod_bound(entropy_sum(seg, 256), m as int);
    }
    let small = acc as u32;
    #[verifier::truncate]
    (small as i32)
}

proof fn lemma_occurs_step(s: Seq<u8>, x: int, k: int)
    requires
        k >= 0,
    ensures
        occurs_before(s, x, k + 1) <==> (occurs_before(s, x, k) || bigram(s, k) == x),
{
    if occurs_before(s, x, k + 1) && !occurs_before(s, x, k) {
        let j = choose|j: int| 0 <= j < k + 1 && bigram(s, j) == x;
        assert(j == k);
    }
}

proof fn lemma_distinct_mono(s: Seq<u8>, k: int, n: int)
    requires
        0 <= k <= n,
    ensures
        distinct_list(s, k).len() <= distinct_list(s, n).len(),
    decreases n - k,
{
    if k < n {
        lemma_distinct_mono(s, k, n - 1);
    }
}

/// Whether `x` is one of the entries of `l`.
pub open spec fn list_has(l: Seq<int>, x: int) -> bool {
    exists|t: int| 0 <= t < l.len() && l[t] == x
}

/// The distinct list holds each bigram that occurs, once, and counts of them
/// are positive exactly for the bigrams that occur.
proof fn lemma_distinct_list(s: Seq<u8>, k: int)
    requires
        k >= 0,
    ensures
        forall|x: int| #[trigger] list_has(distinct_list(s, k), x) <==> occurs_before(s, x, k),
        forall|a: int, b: int|
            0 <= a < b < distinct_list(s, k).len() ==> distinct_list(s, k)[a] != distinct_list(s, k)[b],
        forall|x: int| (#[trigger] bigram_count(s, x, k) > 0) <==> occurs_before(s, x, k),
        forall|x: int| 0 <= #[trigger] bigram_count(s, x, k) <= k,
        forall|t: int| 0 <= t < distinct_list(s, k).len() ==> 0 <= #[trigger] distinct_list(s, k)[t] < 0x10000,
    decreases k,
{
    if k > 0 {
        lemma_distinct_list(s, k - 1);
        assert(0 <= bigram(s, k - 1) < 0x10000);
        let prev = distinct_list(s, k - 1);
        let l = distinct_list(s, k);
        let b = bigram(s, k - 1);
        assert forall|x: int| #[trigger] list_has(l, x) <==> occurs_before(s, x, k) by {
            lemma_occurs_step(s, x, k - 1);
            if first_bigram(s, k - 1) {
                assert(l == prev.push(b));
                if list_has(prev, x) {
                    let t = choose|t: int| 0 <= t < prev.len() && prev[t] == x;
                    assert(l[t] == x);
                }
                if x == b {
                    assert(l[prev.len() as int] == x);
                }
                if list_has(l, x) && x != b {
                    let t = choose|t: int| 0 <= t < l.len() && l[t] == x;
                    assert(t < prev.len());
                    assert(list_has(prev, x));
                }
            } else {
                let j = choose|j: int| 0 <= j < k - 1 && !(#[trigger] bigram(s, j) != bigram(s, k - 1));
                assert(occurs_before(s, b, k - 1));
            }
        }
        assert forall|a: int, c: int| 0 <= a < c < l.len() implies l[a] != l[c] by {
            if first_bigram(s, k - 1) && c == prev.len() {
                assert(list_has(prev, l[a]));
                if l[a] == b {
                    let j = choose|j: int| 0 <= j < k - 1 && bigram(s, j) == b;
                    assert(bigram(s, j) != bigram(s, k - 1));
                }
            }
        }
        assert forall|x: int| (#[trigger] bigram_count(s, x, k) > 0) <==> occurs_before(s, x, k) by {
            lemma_occurs_step(s, x, k - 1);
            assert(bigram_count(s, x, k - 1) > 0 <==> occurs_before(s, x, k - 1));
            assert(0 <= bigram_count(s, x, k - 1));
        }
        assert forall|x: int| 0 <= #[trigger] bigram_count(s, x, k) <= k by {
            assert(0 <= bigram_count(s, x, k - 1) <= k - 1);
        }
    }
}

/// A sequence has at most as many distinct bigrams as bigram positions.
pub proof fn lemma_distinct_len(s: Seq<u8>, k: int)
    requires
        k >= 0,
    ensures
        distinct_list(s, k).len() <= k,
    decreases k,
{
    if k > 0 {
        lemma_distinct_len(s, k - 1);
    }
}

proof fn lemma_count_mono(s: Seq<u8>, x: int, k: int, n: int)
    requires
        0 <= k <= n,
    ensures
        bigram_count(s, x, k) <= bigram_count(s, x, n),
    decreases n - k,
{
    if k < n {
        lemma_count_mono(s, x, k, n - 1);
    }
}

/// Count the distinct bigrams of the bytes of `output` from `offset` on,
/// giving up as soon as there are `best_size` of them (at least one); the
/// table `seen` starts with every set entry listed in `touched`.
fn count_bigrams(
    seen: &mut Vec<bool>,
    touched: &mut Vec<u16>,
    best_size: usize,
    output: &[u8],
    offset: usize,
) -> (r: Option<usize>)
    requires
        bigram_table_ok(old(seen)@, old(touched)@),
        offset <= output.len(),
    ensures
        bigram_table_ok(final(seen)@, final(touched)@),
        ({
            let d = distinct_bigrams(tail(output@, offset as int));
            &&& r matches Some(c) ==> c == d
            &&& r is Some <==> (d == 0 || d < best_size)
        }),
{
    let ghost seg = tail(output@, offset as int);
    let mut t: usize = 0;
    while t < touched.len()
        invariant
            seen@.len() == 0x10000,
            t <= touched@.len(),
            forall|x: int|
                0 <= x < 0x10000 && #[trigger] seen@[x] ==> exists|u: int|
                    t <= u < touched@.len() && touched@[u] == x,
        decreases touched@.len() - t,
    {
        let idx = touched[t] as usize;
        let ghost before = seen@;
        seen.set(idx, false);
        assert forall|x: int|
            0 <= x < 0x10000 && #[trigger] seen@[x] implies exists|u: int|
                t + 1 <= u < touched@.len() && touched@[u] == x by {
            assert(before[x]);
            let u = choose|u: int| t <= u < touched@.len() && touched@[u] == x;
            assert(u != t);
        }
        t += 1;
    }
    touched.clear();
    let n = output.len();
    let mut count: usize = 0;
    let mut i: usize = offset;
    proof {
        lemma_distinct_list(seg, 0);
    }
    while n - i >= 2
        invariant
            offset <= i <= n,
            i == offset || i < n,
            n == output@.len(),
            seg == tail(output@, offset as int),
            seen@.len() == 0x10000,
            forall|x: int| 0 <= x < 0x10000 ==> (#[trigger] seen@[x] <==> occurs_before(seg, x, i - offset)),
            forall|x: int|
                0 <= x < 0x10000 && #[trigger] seen@[x] ==> exists|u: int|
                    0 <= u < touched@.len() && touched@[u] == x,
            count == distinct_list(seg, i - offset).len(),
            count == 0 || count < best_size,
        decreases n - i,
    {
        let ghost j = i - offset;
        let b = (output[i] as usize) * 256 + output[i + 1] as usize;
        assert(b == bigram(seg, j));
        proof {
            lemma_distinct_list(seg, j);
        }
        assert(first_bigram(seg, j) <==> !occurs_before(seg, b as int, j)) by {
            if !first_bigram(seg, j) {
                let w = choose|w: int| 0 <= w < j && !(#[trigger] bigram(seg, w) != bigram(seg, j));
                assert(occurs_before(seg, b as int, j));
            }
        }
        let ghost before = seen@;
        let ghost tb = touched@;
        if !seen[b] {
            count += 1;
            if count >= best_size {
                proof {
                    lemma_distinct_mono(seg, j + 1, num_bigrams(seg));
                }
                return None;
            }
            seen.set(b, true);
            touched.push(b as u16);
            assert(touched@[touched@.len() - 1] == b);
        }
        assert forall|x: int| 0 <= x < 0x10000 implies (#[trigger] seen@[x] <==> occurs_before(
            seg,
            x,
            j + 1,
        )) by {
            lemma_occurs_step(seg, x, j);
        }
        assert forall|x: int|
            0 <= x < 0x10000 && #[trigger] seen@[x] implies exists|u: int|
                0 <= u < touched@.len() && touched@[u] == x by {
            if x != b {
                assert(before[x]);
                let u = choose|u: int| 0 <= u < tb.len() && tb[u] == x;
                assert(touched@[u] == x);
            } else if before[x] {
                let u = choose|u: int| 0 <= u < tb.len() && tb[u] == x;
                assert(touched@[u] == x);
            } else {
                assert(touched@[touched@.len() - 1] == x);
            }
        }
        i += 1;
    }
    assert(i - offset == num_bigrams(seg));
    Some(count)
}

/// The bigram-entropy score of the bytes of `output` from `offset` on; the
/// table of counts starts and ends all zero.
fn bigent_of(seen: &mut Vec<u64>, touched: &mut Vec<u16>, output: &[u8], offset: usize) -> (r: i32)
    requires
        count_table_clear(old(seen)@, old(touched)@),
        offset <= output.len(),
    ensures
        count_table_clear(final(seen)@, final(touched)@),
        r == bigent_score(tail(output@, offset as int)),
{
    let ghost seg = tail(output@, offset as int);
    let n = output.len();
    let mut i: usize = offset;
    proof {
        lemma_distinct_list(seg, 0);
    }
    while n - i >= 2
        invariant
            offset <= i <= n,
            i == offset || i < n,
            n == output@.len(),
            seg == tail(output@, offset as int),
            seen@.len() == 0x10000,
            forall|x: int| 0 <= x < 0x10000 ==> #[trigger] seen@[x] == bigram_count(seg, x, i - offset),
            touched@.len() == distinct_list(seg, i - offset).len(),
            forall|t: int|
                0 <= t < touched@.len() ==> #[trigger] touched@[t] == distinct_list(seg, i - offset)[t],
        decreases n - i,
    {
        let ghost j = i - offset;
        let b = (output[i] as usize) * 256 + output[i + 1] as usize;
        assert(b == bigram(seg, j));
        proof {
            lemma_distinct_list(seg, j);
        }
        assert(first_bigram(seg, j) <==> bigram_count(seg, b as int, j) == 0) by {
            if !first_bigram(seg, j) {
                let w = choose|w: int| 0 <= w < j && !(#[trigger] bigram(seg, w) != bigram(seg, j));
                assert(occurs_before(seg, b as int, j));
            }
            if bigram_count(seg, b as int, j) > 0 {
                let w = choose|w: int| 0 <= w < j && bigram(seg, w) == b;
                assert(bigram(seg, w) == bigram(seg, j));
            }
        }
        let c = seen[b];
        if c == 0 {
            touched.push(b as u16);
        }
        let ghost before = seen@;
        seen.set(b, c + 1);
        assert forall|x: int| 0 <= x < 0x10000 implies #[trigger] seen@[x] == bigram_count(
            seg,
            x,
            j + 1,
        ) by {
            assert(before[x] == bigram_count(seg, x, j));
        }
        i += 1;
    }
    let ghost nb = num_bigrams(seg);
    assert(i - offset == nb);
    let ghost dl = distinct_list(seg, nb);
    proof {
        lemma_distinct_list(seg, nb);
    }
    let m: u128 = 0x1_0000_0000;
    let mut acc: u128 = 0;
    let mut t: usize = 0;
    while t < touched.len()
        invariant
            m == 0x1_0000_0000,
            seen@.len() == 0x10000,
            dl == distinct_list(seg, nb),
            nb == num_bigrams(seg),
            touched@.len() == dl.len(),
            forall|u: int| 0 <= u < touched@.len() ==> #[trigger] touched@[u] == dl[u],
            forall|u: int| 0 <= u < dl.len() ==> 0 <= #[trigger] dl[u] < 0x10000,
            forall|a: int, b: int| 0 <= a < b < dl.len() ==> dl[a] != dl[b],
            forall|x: int| #[trigger] list_has(dl, x) <==> occurs_before(seg, x, nb),
            forall|x: int| (#[trigger] bigram_count(seg, x, nb) > 0) <==> occurs_before(seg, x, nb),
            t <= dl.len(),
            acc == bigent_sum(seg, dl, t as int) % (m as int),
            forall|u: int| 0 <= u < t ==> #[trigger] seen@[dl[u]] == 0,
            forall|u: int| t <= u < dl.len() ==> #[trigger] seen@[dl[u]] == bigram_count(seg, dl[u], nb),
            forall|x: int| 0 <= x < 0x10000 && !list_has(dl, x) ==> #[trigger] seen@[x] == 0,
        decreases dl.len() - t,
    {
        let idx = touched[t] as usize;
        assert(idx == dl[t as int]);
        assert(list_has(dl, dl[t as int]));
        let c = seen[idx];
        assert(c == bigram_count(seg, dl[t as int], nb));
        let term = ilog2i_exec(c as u128);
        proof {
            vstd::arithmetic::div_mod::lemma_add_mod_noop(bigent_sum(seg, dl, t as int), term as int, m as int);
            vstd::arithmetic::div_mod::lemma_mod_bound(bigent_sum(seg, dl, t as int), m as int);
        }
        acc = (acc + term % m) % m;
        let ghost before = seen@;
        seen.set(idx, 0);
        assert forall|u: int| t + 1 <= u < dl.len() implies #[trigger] seen@[dl[u]] == bigram_count(
            seg,
            dl[u],
            nb,
        ) by {
            assert(dl[u] != dl[t as int]);
            assert(before[dl[u]] == bigram_count(seg, dl[u], nb));
        }
        assert forall|u: int| 0 <= u < t + 1 implies #[trigger] seen@[dl[u]] == 0 by {
            if u < t {
                assert(dl[u] != dl[t as int]);
                assert(before[dl[u]] == 0);
            }
        }
        assert forall|x: int| 0 <= x < 0x10000 && !list_has(dl, x) implies #[trigger] seen@[x] == 0 by {
            assert(before[x] == 0);
        }
        t += 1;
    }
    assert forall|x: int| 0 <= x < 0x10000 implies #[trigger] seen@[x] == 0 by {
        if list_has(dl, x) {
            let u = choose|u: int| 0 <= u < dl.len() && dl[u] == x;
            assert(seen@[dl[u]] == 0);
        }
    }
    touched.clear();
    proof {
        vstd::arithmetic::div_mod::lemma_mod_bound(bigent_sum(seg, dl, dl.len() as int), m as int);
    }
    let small = acc as u32;
    #[verifier::truncate]
    (small as i32)
}

/// The score that a heuristic strategy gives a filtered row.
pub open spec fn row_score(strategy: FilterStrategy, row: Seq<u8>) -> int {
    match strategy {
        FilterStrategy::MinSum => minsum(row),
        FilterStrategy::Entropy => entropy_score(row) as int,
        FilterStrategy::Bigrams => distinct_bigrams(row),
        FilterStrategy::BigEnt => bigent_score(row) as int,
        _ => 0,
    }
}

proof fn lemma_minsum_append(s: Seq<u8>, t: Seq<u8>)
    ensures
        minsum(s + t) == minsum(s) + minsum(t),
    decreases t.len(),
{
    if t.len() == 0 {
        assert(s + t =~= s);
    } else {
        lemma_minsum_append(s, t.drop_last());
        assert((s + t).drop_last() =~= s + t.drop_last());
        assert((s + t).last() == t.last());
    }
}

/// The MinSum score of a row is the sum of the scores of its bytes, and a
/// byte scores its magnitude as a signed byte: a byte below 128 scores
/// itself, and a byte and its negation (`256 - b`) score alike, so that
/// 255 (-1) scores 1.
pub proof fn lemma_minsum_score(s: Seq<u8>, t: Seq<u8>, b: u8)
    ensures
        row_score(FilterStrategy::MinSum, Seq::<u8>::empty()) == 0,
        row_score(FilterStrategy::MinSum, s + t) == row_score(FilterStrategy::MinSum, s) + row_score(
            FilterStrategy::MinSum,
            t,
        ),
        b < 128 ==> row_score(FilterStrategy::MinSum, seq![b]) == b,
        b > 0 ==> row_score(FilterStrategy::MinSum, seq![b]) == row_score(FilterStrategy::MinSum, seq![(256 - b) as u8]),
{
    lemma_minsum_append(s, t);
    assert(seq![b].drop_last() =~= Seq::<u8>::empty());
    let nb = (256 - b) as u8;
    assert(seq![nb].drop_last() =~= Seq::<u8>::empty());
}

/// Whether a row beats the best score so far: a lower sum or count, or a
/// higher entropy (a row without any bigram always wins for `Bigrams`).
pub open spec fn row_wins(strategy: FilterStrategy, best: int, row: Seq<u8>) -> bool {
    match strategy {
        FilterStrategy::MinSum => row_score(strategy, row) < best,
        FilterStrategy::Entropy => row_score(strategy, row) > best,
        FilterStrategy::Bigrams => row_score(strategy, row) == 0 || row_score(strategy, row) < best,
        FilterStrategy::BigEnt => row_score(strategy, row) > best,
        _ => false,
    }
}

/// The best score with which each line starts.
pub open spec fn initial_best(strategy: FilterStrategy) -> int {
    match strategy {
        FilterStrategy::MinSum => u128::MAX as int,
        FilterStrategy::Entropy => i32::MIN as int,
        FilterStrategy::Bigrams => usize::MAX as int,
        FilterStrategy::BigEnt => i32::MIN as int,
        _ => 0,
    }
}

/// The bytes that the `Brute` evaluator compresses: the last `limit` bytes of
/// the output (all of it when it is shorter).
pub open spec fn brute_input(output: Seq<u8>, limit: int) -> Seq<u8> {
    if output.len() > limit {
        output.subrange(output.len() - limit, output.len() as int)
    } else {
        output
    }
}

impl StrategyEvaluator {
    /// The bookkeeping that each evaluator keeps between evaluations.
    pub open spec fn inv(&self) -> bool {
        match self {
            StrategyEvaluator::Bigrams { seen, touched, .. } => bigram_table_ok(seen@, touched@),
            StrategyEvaluator::BigEnt { seen, touched, .. } => count_table_clear(seen@, touched@),
            _ => true,
        }
    }

    /// The strategy that the evaluator carries out.
    pub open spec fn kind(&self) -> FilterStrategy {
        match self {
            StrategyEvaluator::MinSum { .. } => FilterStrategy::MinSum,
            StrategyEvaluator::Entropy { .. } => FilterStrategy::Entropy,
            StrategyEvaluator::Bigrams { .. } => FilterStrategy::Bigrams,
            StrategyEvaluator::BigEnt { .. } => FilterStrategy::BigEnt,
            StrategyEvaluator::Brute { num_lines, compressor, .. } => FilterStrategy::Brute {
                num_lines: *num_lines,
                level: compressor.level(),
            },
        }
    }

    /// The best score so far.
    pub open spec fn best(&self) -> int {
        match self {
            StrategyEvaluator::MinSum { best_size } => *best_size as int,
            StrategyEvaluator::Entropy { best_size } => *best_size as int,
            StrategyEvaluator::Bigrams { best_size, .. } => *best_size as int,
            StrategyEvaluator::BigEnt { best_size, .. } => *best_size as int,
            StrategyEvaluator::Brute { .. } => 0,
        }
    }

    /// For `Brute`: the buffer has room for the compressed form of any input
    /// of at most `limit` bytes.
    pub open spec fn brute_room(&self) -> bool {
        match self {
            StrategyEvaluator::Brute { compressor, limit, buffer, .. } => forall|d: Seq<u8>|
                d.len() <= *limit ==> #[trigger] spec_libdeflate_raw(compressor.level(), d).len()
                    <= buffer@.len(),
            _ => true,
        }
    }


    /// Reset the best result for a new line of `line_len` bytes.
    pub fn reset(&mut self, line_len: usize)
        requires
            old(self).inv(),
            *old(self) matches StrategyEvaluator::Brute { num_lines, .. } ==> raw_bound(line_len * num_lines)
                <= usize::MAX,
        ensures
            final(self).inv(),
            final(self).kind() == old(self).kind(),
            final(self).best() == initial_best(old(self).kind()),
            *final(self) matches StrategyEvaluator::Brute { num_lines, limit, .. } ==> limit == line_len
                * num_lines,
            final(self).brute_room(),
    {
        match self {
            StrategyEvaluator::MinSum { best_size } => {
                *best_size = u128::MAX;
            },
            StrategyEvaluator::Entropy { best_size } => {
                *best_size = i32::MIN;
            },
            StrategyEvaluator::Bigrams { best_size, .. } => {
                *best_size = usize::MAX;
            },
            StrategyEvaluator::BigEnt { best_size, .. } => {
                *best_size = i32::MIN;
            },
            StrategyEvaluator::Brute { num_lines, compressor, limit, buffer } => {
                *limit = line_len * *num_lines;
                let capacity = compressor.deflate_compress_bound(*limit);
                buffer.resize(capacity, 0);
            },
        }
    }

    /// Evaluate the output of a filter attempt (the bytes of `output` from
    /// `offset` on), returning whether it is the best so far. `Brute` compresses
    /// the last `limit` bytes of the output instead, and its attempt is the best
    /// so far when the compressed form is shorter than the buffer, which it then
    /// leaves one byte shorter than that form.
    pub fn evaluate(&mut self, output: &[u8], offset: usize) -> (r: bool)
        requires
            old(self).inv(),
            offset <= output.len(),
        ensures
            final(self).inv(),
            final(self).kind() == old(self).kind(),
            !(*old(self) is Brute) ==> r == row_wins(old(self).kind(), old(self).best(), tail(output@, offset as int))
                && final(self).best() == (if r {
                row_score(old(self).kind(), tail(output@, offset as int))
            } else {
                old(self).best()
            }),
            *old(self) matches StrategyEvaluator::Brute { compressor, limit, buffer, .. } ==> {
                let input = brute_input(output@, limit as int);
                let stream = spec_libdeflate_raw(compressor.level(), input);
                &&& *final(self) matches StrategyEvaluator::Brute { limit: l2, buffer: b2, .. } && l2 == limit
                    && (r ==> b2@ == stream.drop_last() && 1 <= stream.len()) && (!r ==> b2@.len() == buffer@.len())
                &&& r == (stream.len() <= buffer@.len())
                &&& old(self).brute_room() ==> r
            },
    {
        match self {
            StrategyEvaluator::MinSum { best_size } => {
                let size = minsum_of(output, offset);
                if size < *best_size {
                    *best_size = size;
                    true
                } else {
                    false
                }
            },
            StrategyEvaluator::Entropy { best_size } => {
                let size = entropy_of(output, offset);
                if size > *best_size {
                    *best_size = size;
                    true
                } else {
                    false
                }
            },
            StrategyEvaluator::Bigrams { seen, touched, best_size } => {
                match count_bigrams(seen, touched, *best_size, output, offset) {
                    Some(count) => {
                        *best_size = count;
                        true
                    },
                    None => false,
                }
            },
            StrategyEvaluator::BigEnt { seen, touched, best_size } => {
                let size = bigent_of(seen, touched, output, offset);
                if size > *best_size {
                    *best_size = size;
                    true
                } else {
                    false
                }
            },
            StrategyEvaluator::Brute { compressor, limit, buffer, .. } => {
                let len = output.len();
                let start = if len > *limit {
                    len - *limit
                } else {
                    0
                };
                let input = &output[start..len];
                assert(input@ =~= brute_input(output@, *limit as int));
                match compressor.deflate_compress(input, buffer) {
                    Ok(size) => {
                        buffer.truncate(size - 1);
                        true
                    },
                    Err(_) => false,
                }
            },
        }
    }
}

impl FilterStrategy {
    /// For heuristic strategies, get an evaluator to determine the best
    /// filter for each row.
    pub fn evaluator(&self) -> (r: Option<StrategyEvaluator>)
        requires
            *self matches FilterStrategy::Brute { level, .. } ==> level <= 12,
        ensures
            r is Some <==> !(*self is Basic || *self is Predefined),
            r matches Some(e) ==> e.inv() && e.kind() == *self,
    {
        match self {
            FilterStrategy::MinSum => Some(StrategyEvaluator::MinSum { best_size: u128::MAX }),
            FilterStrategy::Entropy => Some(StrategyEvaluator::Entropy { best_size: i32::MIN }),
            FilterStrategy::Bigrams => {
                let mut seen: Vec<bool> = Vec::new();
                let mut i: usize = 0;
                while i < 0x10000
                    invariant
                        i <= 0x10000,
                        seen@.len() == i,
                        forall|x: int| 0 <= x < i ==> !#[trigger] seen@[x],
                    decreases 0x10000 - i,
                {
                    seen.push(false);
                    i += 1;
                }
                Some(StrategyEvaluator::Bigrams { seen, touched: Vec::new(), best_size: usize::MAX })
            },
            FilterStrategy::BigEnt => {
                let mut seen: Vec<u64> = Vec::new();
                let mut i: usize = 0;
                while i < 0x10000
                    invariant
                        i <= 0x10000,
                        seen@.len() == i,
                        forall|x: int| 0 <= x < i ==> #[trigger] seen@[x] == 0,
                    decreases 0x10000 - i,
                {
                    seen.push(0);
                    i += 1;
                }
                Some(StrategyEvaluator::BigEnt { seen, touched: Vec::new(), best_size: i32::MIN })
            },
            FilterStrategy::Brute { num_lines, level } => Some(
                StrategyEvaluator::Brute {
                    num_lines: *num_lines,
                    compressor: LevelCompressor::new(*level),
                    limit: 0,
                    buffer: Vec::new(),
                },
            ),
            _ => None,
        }
    }
}

} // verus!
