use vstd::prelude::*;

use crate::colors::{BitDepth, ColorType, Rgba8};
use crate::deflate::{inflate, spec_zlib_inflate};
use crate::error::{PngError, PngResult};
use crate::filters::{
    FilterStrategy, RowFilter, filtered_row, lemma_optimized_alpha_same, lemma_same_trans, same_but_transparent, lemma_optimized_alpha_len, lemma_unfilter_filter_roundtrip,
    lemma_unfiltered_prefix_len,
    optimized_alpha, unfiltered_prefix, unfiltered_row,
};
use crate::deflate::deflater::{raw_bound, spec_libdeflate_raw};
use crate::strategies::{
    brute_input, distinct_bigrams, initial_best, lemma_distinct_len, lemma_minsum_bound, num_bigrams, row_score, row_wins,
    tail, StrategyEvaluator,
};
use crate::headers::{
    IhdrData, LineShape, copy_range, layout_size, lemma_layout_lines, lemma_layout_size_nonneg,
    line_bytes, push_all,
};

verus! {

/// An image: its header and its uncompressed, unfiltered scanlines
#[derive(Debug, Clone)]
pub struct PngImage {
    /// The headers stored in the IHDR chunk
    pub ihdr: IhdrData,
    /// The uncompressed, unfiltered data from the IDAT chunk
    pub data: Vec<u8>,
}

/// Where scanline `k` starts in a stream of scanlines each preceded by
/// `filter` bytes.
pub open spec fn line_start(layout: Seq<LineShape>, filter: int, k: int) -> int {
    layout_size(layout.take(k), filter)
}

/// The bytes of scanline `k`, without its filter bytes.
pub open spec fn line_of(layout: Seq<LineShape>, data: Seq<u8>, filter: int, k: int) -> Seq<u8> {
    data.subrange(
        line_start(layout, filter, k) + filter,
        line_start(layout, filter, k) + filter + layout[k].1,
    )
}

/// Whether scanline `k` is the first of its interlacing pass (or of the image).
pub open spec fn starts_pass(layout: Seq<LineShape>, k: int) -> bool {
    k == 0 || layout[k].0 != layout[k - 1].0
}

/// `n` zero bytes.
pub open spec fn zeros(n: int) -> Seq<u8> {
    Seq::new(n as nat, |i: int| 0u8)
}

/// The lines one after the other.
pub open spec fn concat(s: Seq<Seq<u8>>) -> Seq<u8>
    decreases s.len(),
{
    if s.len() == 0 {
        Seq::empty()
    } else {
        concat(s.drop_last()) + s.last()
    }
}

/// The first `k` scanlines of a filtered stream, unfiltered: each line is
/// unfiltered against the previous unfiltered line of its pass, or against
/// zeros when it starts a pass. `None` when a filter type byte is not 0..=4.
pub open spec fn unfilter_lines(layout: Seq<LineShape>, data: Seq<u8>, bpp: int, k: nat) -> Option<
    Seq<Seq<u8>>,
>
    decreases k,
{
    if k == 0 {
        Some(Seq::empty())
    } else {
        match unfilter_lines(layout, data, bpp, (k - 1) as nat) {
            None => None,
            Some(lines) => {
                let i = k - 1;
                match RowFilter::spec_from_code(data[line_start(layout, 1, i)]) {
                    Err(_) => None,
                    Ok(f) => {
                        let prev = if starts_pass(layout, i) {
                            zeros(layout[i].1)
                        } else {
                            lines.last()
                        };
                        Some(lines.push(unfiltered_row(f, bpp, line_of(layout, data, 1, i), prev)))
                    },
                }
            },
        }
    }
}

/// The unfiltered image data of a filtered stream of scanlines.
pub open spec fn spec_unfilter_image(layout: Seq<LineShape>, data: Seq<u8>, bpp: int) -> Option<
    Seq<u8>,
> {
    match unfilter_lines(layout, data, bpp, layout.len()) {
        Some(lines) => Some(concat(lines)),
        None => None,
    }
}

/// The error of decoding an image of `size` filtered bytes, laid out in
/// `layout`, from a stream that decompresses to `z`: an invalid stream gives
/// invalid data or too much data; a stream that decompresses to too much
/// gives the latter, to too little truncated data, and to the right size
/// with an unknown filter type invalid data. A stream that decompresses to
/// the right size and unfilters gives no error.
pub open spec fn decode_error(e: PngError, z: Option<Seq<u8>>, size: int, layout: Seq<LineShape>, bpp: int) -> bool {
    match z {
        None => e == PngError::InvalidData || e == PngError::InflatedDataTooLong(size as usize),
        Some(v) => if v.len() > size {
            e == PngError::InflatedDataTooLong(size as usize)
        } else if v.len() < size {
            e == PngError::TruncatedData
        } else {
            spec_unfilter_image(layout, v, bpp) is None && e == PngError::InvalidData
        },
    }
}

pub proof fn lemma_concat_push(s: Seq<Seq<u8>>, x: Seq<u8>)
    ensures
        concat(s.push(x)) == concat(s) + x,
{
    assert(s.push(x).drop_last() =~= s);
}

pub proof fn lemma_unfilter_lines_none(layout: Seq<LineShape>, data: Seq<u8>, bpp: int, j: nat, n: nat)
    requires
        j <= n,
        unfilter_lines(layout, data, bpp, j) is None,
    ensures
        unfilter_lines(layout, data, bpp, n) is None,
    decreases n - j,
{
    if j < n {
        lemma_unfilter_lines_none(layout, data, bpp, j + 1, n);
    }
}

pub proof fn lemma_unfilter_lines_shape(layout: Seq<LineShape>, data: Seq<u8>, bpp: int, k: nat)
    requires
        k <= layout.len(),
        forall|j: int| 0 <= j < layout.len() ==> (#[trigger] layout[j]).1 >= 0,
        data.len() >= layout_size(layout, 1),
    ensures
        unfilter_lines(layout, data, bpp, k) matches Some(lines) ==> {
            &&& lines.len() == k
            &&& forall|j: int| 0 <= j < k ==> (#[trigger] lines[j]).len() == layout[j].1
            &&& concat(lines).len() == layout_size(layout.take(k as int), 0)
        },
    decreases k,
{
    if k > 0 {
        lemma_unfilter_lines_shape(layout, data, bpp, (k - 1) as nat);
        lemma_layout_size_nonneg(layout, 1);
        assert(layout_size(layout.take(k as int), 1) <= layout_size(layout, 1));
        assert(layout.take(k as int).drop_last() =~= layout.take(k - 1));
        if let Some(lines) = unfilter_lines(layout, data, bpp, k) {
            let prev_lines = unfilter_lines(layout, data, bpp, (k - 1) as nat).unwrap();
            let i = k - 1;
            let f = RowFilter::spec_from_code(data[line_start(layout, 1, i)]).unwrap();
            let prev = if starts_pass(layout, i) {
                zeros(layout[i].1)
            } else {
                prev_lines.last()
            };
            let line = line_of(layout, data, 1, i);
            assert(layout.take(k as int).last() == layout[i]);
            assert(layout_size(layout.take(k as int), 1) == layout_size(layout.take(i), 1) + layout[i].1 + 1);
            assert forall|j: int| 0 <= j < layout.take(i).len() implies (#[trigger] layout.take(i)[j]).1 >= 0 by {
                assert(layout.take(i)[j] == layout[j]);
            }
            lemma_layout_size_nonneg(layout.take(i), 1);
            assert(line.len() == layout[i].1);
            lemma_unfiltered_prefix_len(f, bpp, line, prev, line.len());
            let row = unfiltered_row(f, bpp, line, prev);
            assert(row.len() == layout[i].1);
            assert(lines == prev_lines.push(row));
            lemma_concat_push(prev_lines, row);
            assert(layout_size(layout.take(k as int), 0) == layout_size(layout.take(i), 0) + layout[i].1);
            assert forall|j: int| 0 <= j < k implies (#[trigger] lines[j]).len() == layout[j].1 by {
                if j < i {
                    assert(lines[j] == prev_lines[j]);
                }
            }
        }
    }
}

/// The pass tags are the same.
fn same_tag(a: Option<u8>, b: Option<u8>) -> (r: bool)
    ensures
        r == (a == b),
{
    match (a, b) {
        (None, None) => true,
        (Some(x), Some(y)) => x == y,
        _ => false,
    }
}

/// `n` zero bytes.
pub fn zero_vec(n: usize) -> (r: Vec<u8>)
    ensures
        r@ == zeros(n as int),
{
    let mut v: Vec<u8> = Vec::new();
    let mut i: usize = 0;
    while i < n
        invariant
            i <= n,
            v@ == zeros(i as int),
        decreases n - i,
    {
        v.push(0);
        i += 1;
        assert(v@ =~= zeros(i as int));
    }
    v
}

/// The line that line `i` is filtered against: the previous line of its pass,
/// or zeros when it starts a pass.
pub open spec fn prev_line_of(layout: Seq<LineShape>, lines: Seq<Seq<u8>>, i: int) -> Seq<u8> {
    if starts_pass(layout, i) {
        zeros(layout[i].1)
    } else {
        lines[i - 1]
    }
}

/// The filtered stream of the lines `lines`, line `i` filtered with `fs[i]`.
pub open spec fn filtered_stream(
    layout: Seq<LineShape>,
    bpp: int,
    fs: Seq<RowFilter>,
    lines: Seq<Seq<u8>>,
) -> Seq<u8> {
    concat(
        Seq::new(
            layout.len(),
            |i: int| filtered_row(fs[i], bpp, lines[i], prev_line_of(layout, lines, i)),
        ),
    )
}

/// The scanlines of unfiltered image data.
pub open spec fn image_lines(layout: Seq<LineShape>, data: Seq<u8>) -> Seq<Seq<u8>> {
    Seq::new(layout.len(), |i: int| line_of(layout, data, 0, i))
}

/// The lines as alpha optimisation leaves them when line `i` is filtered with
/// `fs[i]`: each line is optimised against the previous optimised line of its
/// pass. With `alpha` zero, the lines are unchanged.
pub open spec fn alpha_lines(
    layout: Seq<LineShape>,
    data: Seq<u8>,
    bpp: int,
    fs: Seq<RowFilter>,
    alpha: int,
    k: nat,
) -> Seq<Seq<u8>>
    decreases k,
{
    if k == 0 {
        Seq::empty()
    } else {
        let before = alpha_lines(layout, data, bpp, fs, alpha, (k - 1) as nat);
        let i = k - 1;
        let raw = line_of(layout, data, 0, i);
        if alpha == 0 {
            before.push(raw)
        } else {
            let prev = if starts_pass(layout, i) {
                zeros(layout[i].1)
            } else {
                before.last()
            };
            before.push(optimized_alpha(fs[i], bpp, bpp - alpha, raw, prev))
        }
    }
}

/// The filter that a strategy names for each of `n` lines (the heuristic
/// strategies name none; `filter_image` reports its choices as `Predefined`).
pub open spec fn strategy_filters(strategy: FilterStrategy, n: int) -> Seq<RowFilter> {
    match strategy {
        FilterStrategy::Basic(f) => Seq::new(n as nat, |i: int| f),
        FilterStrategy::Predefined(v) => Seq::new(
            n as nat,
            |i: int|
                if i < v@.len() {
                    v@[i]
                } else {
                    RowFilter::NoFilter
                },
        ),
        _ => Seq::new(n as nat, |i: int| RowFilter::NoFilter),
    }
}

pub open spec fn is_heuristic(strategy: FilterStrategy) -> bool {
    !(strategy is Basic || strategy is Predefined)
}

/// Scanline lengths that a valid header produces: lines of one pass share a
/// length, and each holds at least one pixel of `bpp` bytes.
pub open spec fn layout_ok(layout: Seq<LineShape>, bpp: int) -> bool {
    &&& bpp >= 1
    &&& forall|i: int| 0 <= i < layout.len() ==> (#[trigger] layout[i]).1 >= bpp
    &&& forall|i: int| 0 < i < layout.len() && #[trigger] layout[i].0 == layout[i - 1].0 ==> layout[i].1 == layout[i - 1].1
}

pub proof fn lemma_concat_append(a: Seq<Seq<u8>>, b: Seq<Seq<u8>>)
    ensures
        concat(a + b) == concat(a) + concat(b),
    decreases b.len(),
{
    if b.len() == 0 {
        assert(a + b =~= a);
        assert(concat(b) =~= Seq::<u8>::empty());
        assert(concat(a) + concat(b) =~= concat(a));
    } else {
        lemma_concat_append(a, b.drop_last());
        assert((a + b).drop_last() =~= a + b.drop_last());
        assert((a + b).last() == b.last());
        assert(concat(a + b) =~= concat(a) + concat(b));
    }
}

/// Where line `i` of a stream of lines sits.
proof fn lemma_concat_block(s: Seq<Seq<u8>>, i: int)
    requires
        0 <= i < s.len(),
    ensures
        concat(s.take(i)).len() + s[i].len() <= concat(s).len(),
        concat(s).subrange(concat(s.take(i)).len() as int, (concat(s.take(i)).len() + s[i].len()) as int) == s[i],
{
    assert(s =~= s.take(i) + (seq![s[i]] + s.skip(i + 1)));
    lemma_concat_append(s.take(i), seq![s[i]] + s.skip(i + 1));
    lemma_concat_append(seq![s[i]], s.skip(i + 1));
    assert(seq![s[i]].drop_last() =~= Seq::<Seq<u8>>::empty());
    assert(concat(Seq::<Seq<u8>>::empty()) =~= Seq::<u8>::empty());
    assert(seq![s[i]].last() == s[i]);
    assert(concat(seq![s[i]]) == concat(seq![s[i]].drop_last()) + seq![s[i]].last());
    assert(concat(seq![s[i]]) =~= s[i]);
    let c = concat(s);
    let p = concat(s.take(i)).len() as int;
    assert(c.subrange(p, p + s[i].len()) =~= s[i]);
}

/// The length of a stream of lines of the given lengths.
proof fn lemma_concat_len(s: Seq<Seq<u8>>, layout: Seq<LineShape>, extra: int, k: int)
    requires
        0 <= k <= s.len(),
        s.len() <= layout.len(),
        forall|i: int| 0 <= i < s.len() ==> (#[trigger] s[i]).len() == layout[i].1 + extra,
    ensures
        concat(s.take(k)).len() == layout_size(layout.take(k), extra),
    decreases k,
{
    if k > 0 {
        lemma_concat_len(s, layout, extra, k - 1);
        assert(s.take(k).drop_last() =~= s.take(k - 1));
        assert(layout.take(k).drop_last() =~= layout.take(k - 1));
    }
}

/// Unfiltering the filtered stream of any lines of the layout's lengths gives
/// back the lines: whichever filter each line was filtered with, and whatever
/// alpha optimisation did to the lines before.
pub proof fn lemma_unfilter_filtered_stream(
    layout: Seq<LineShape>,
    bpp: int,
    fs: Seq<RowFilter>,
    lines: Seq<Seq<u8>>,
)
    requires
        layout_ok(layout, bpp),
        fs.len() == layout.len(),
        lines.len() == layout.len(),
        forall|i: int| 0 <= i < layout.len() ==> (#[trigger] lines[i]).len() == layout[i].1,
    ensures
        spec_unfilter_image(layout, filtered_stream(layout, bpp, fs, lines), bpp) == Some(concat(lines)),
{
    let rows = Seq::new(
        layout.len(),
        |i: int| filtered_row(fs[i], bpp, lines[i], prev_line_of(layout, lines, i)),
    );
    let stream = concat(rows);
    assert forall|i: int| 0 <= i < rows.len() implies (#[trigger] rows[i]).len() == layout[i].1 + 1 by {}
    lemma_unfilter_stream_prefix(layout, bpp, fs, lines, rows, layout.len());
    assert(lines.take(layout.len() as int) =~= lines);
}

proof fn lemma_unfilter_stream_prefix(
    layout: Seq<LineShape>,
    bpp: int,
    fs: Seq<RowFilter>,
    lines: Seq<Seq<u8>>,
    rows: Seq<Seq<u8>>,
    k: nat,
)
    requires
        layout_ok(layout, bpp),
        fs.len() == layout.len(),
        lines.len() == layout.len(),
        forall|i: int| 0 <= i < layout.len() ==> (#[trigger] lines[i]).len() == layout[i].1,
        rows == Seq::new(
            layout.len(),
            |i: int| filtered_row(fs[i], bpp, lines[i], prev_line_of(layout, lines, i)),
        ),
        forall|i: int| 0 <= i < rows.len() ==> (#[trigger] rows[i]).len() == layout[i].1 + 1,
        k <= layout.len(),
    ensures
        unfilter_lines(layout, concat(rows), bpp, k) == Some(lines.take(k as int)),
    decreases k,
{
    if k > 0 {
        let i = k - 1;
        lemma_unfilter_stream_prefix(layout, bpp, fs, lines, rows, i as nat);
        let stream = concat(rows);
        lemma_concat_block(rows, i);
        lemma_concat_len(rows, layout, 1, i);
        let p = line_start(layout, 1, i);
        assert(p == concat(rows.take(i)).len());
        let row = rows[i];
        assert(stream.subrange(p, p + row.len()) == row);
        assert(stream[p] == row[0]);
        assert(row[0] == fs[i].spec_code());
        assert(RowFilter::spec_from_code(fs[i].spec_code()) == Ok::<RowFilter, ()>(fs[i]));
        assert(line_of(layout, stream, 1, i) =~= row.drop_first());
        let prev_lines = lines.take(i);
        let prev = if starts_pass(layout, i) {
            zeros(layout[i].1)
        } else {
            prev_lines.last()
        };
        assert(prev == prev_line_of(layout, lines, i));
        assert(prev.len() == lines[i].len()) by {
            if !starts_pass(layout, i) {
                assert(layout[i].0 == layout[i - 1].0);
            }
        }
        lemma_unfilter_filter_roundtrip(fs[i], bpp, lines[i], prev);
        assert(lines.take(k as int) =~= prev_lines.push(lines[i]));
    }
}

/// The filter with type byte `k` (the order in which the heuristic
/// strategies try the filters).
pub open spec fn filter_at(k: int) -> RowFilter {
    if k == 0 {
        RowFilter::NoFilter
    } else if k == 1 {
        RowFilter::Sub
    } else if k == 2 {
        RowFilter::Up
    } else if k == 3 {
        RowFilter::Average
    } else {
        RowFilter::Paeth
    }
}

/// The line after alpha optimisation for the filters `0..k` in turn: the
/// heuristic strategies try every filter on one copy of the line. With `alpha`
/// zero the line is unchanged.
pub open spec fn alpha_chain(bpp: int, alpha: int, raw: Seq<u8>, prev: Seq<u8>, k: nat) -> Seq<u8>
    decreases k,
{
    if alpha == 0 || k == 0 {
        raw
    } else {
        optimized_alpha(filter_at(k - 1), bpp, bpp - alpha, alpha_chain(bpp, alpha, raw, prev, (k - 1) as nat), prev)
    }
}

/// The row that attempt `k` of a heuristic strategy writes.
pub open spec fn attempt_row(bpp: int, alpha: int, raw: Seq<u8>, prev: Seq<u8>, k: int) -> Seq<u8> {
    filtered_row(filter_at(k), bpp, alpha_chain(bpp, alpha, raw, prev, (k + 1) as nat), prev)
}

/// The best score and the winning attempt after attempts `0..k`: an attempt
/// takes over when its row wins against the best score so far.
pub open spec fn pick(
    strategy: FilterStrategy,
    bpp: int,
    alpha: int,
    raw: Seq<u8>,
    prev: Seq<u8>,
    k: nat,
) -> (int, Option<int>)
    decreases k,
{
    if k == 0 {
        (initial_best(strategy), None)
    } else {
        let (b, w) = pick(strategy, bpp, alpha, raw, prev, (k - 1) as nat);
        let row = attempt_row(bpp, alpha, raw, prev, k - 1);
        if row_wins(strategy, b, row) {
            (row_score(strategy, row), Some(k - 1))
        } else {
            (b, w)
        }
    }
}

/// The attempt that a heuristic strategy picks for a line: the first filter
/// for a line of zeros, else the last attempt that won (none when none won).
pub open spec fn line_winner(strategy: FilterStrategy, bpp: int, alpha: int, raw: Seq<u8>, prev: Seq<u8>) -> Option<int> {
    if forall|i: int| 0 <= i < raw.len() ==> raw[i] == 0 {
        Some(0)
    } else {
        pick(strategy, bpp, alpha, raw, prev, 5).1
    }
}

/// The line that line `i` is filtered against, given the lines before it.
pub open spec fn prev_of(layout: Seq<LineShape>, before: Seq<Seq<u8>>, i: int) -> Seq<u8> {
    if starts_pass(layout, i) {
        zeros(layout[i].1)
    } else {
        before.last()
    }
}

/// The first `k` lines as a heuristic strategy leaves them, given the attempt
/// that won each line: the line after alpha optimisation up to that attempt,
/// or zeros when no attempt won (the line is then written as zeros).
pub open spec fn heuristic_lines(
    layout: Seq<LineShape>,
    data: Seq<u8>,
    bpp: int,
    alpha: int,
    w: Seq<Option<int>>,
    k: nat,
) -> Seq<Seq<u8>>
    decreases k,
{
    if k == 0 {
        Seq::empty()
    } else {
        let before = heuristic_lines(layout, data, bpp, alpha, w, (k - 1) as nat);
        let i = k - 1;
        let raw = line_of(layout, data, 0, i);
        let prev = prev_of(layout, before, i);
        before.push(
            match w[i] {
                Some(a) => alpha_chain(bpp, alpha, raw, prev, (a + 1) as nat),
                None => zeros(layout[i].1),
            },
        )
    }
}

/// The attempts that a heuristic strategy other than `Brute` picks for the
/// first `k` lines.
pub open spec fn heuristic_winners(
    strategy: FilterStrategy,
    layout: Seq<LineShape>,
    data: Seq<u8>,
    bpp: int,
    alpha: int,
    k: nat,
) -> Seq<Option<int>>
    decreases k,
{
    if k == 0 {
        Seq::empty()
    } else {
        let before = heuristic_winners(strategy, layout, data, bpp, alpha, (k - 1) as nat);
        let i = k - 1;
        let lines = heuristic_lines(layout, data, bpp, alpha, before, i as nat);
        before.push(line_winner(strategy, bpp, alpha, line_of(layout, data, 0, i), prev_of(layout, lines, i)))
    }
}

/// The length of the raw DEFLATE stream, at `level`, of the bytes that a
/// `Brute` attempt is judged by: the last `limit` bytes of the output with the
/// attempt's row appended.
pub open spec fn brute_len(level: u8, limit: int, out: Seq<u8>, row: Seq<u8>) -> int {
    spec_libdeflate_raw(level, brute_input(out + row, limit)).len() as int
}

/// Among attempts `0..k` of `Brute` on a line, the shortest compressed length
/// and the first attempt that gives it.
pub open spec fn brute_pick(
    level: u8,
    limit: int,
    bpp: int,
    alpha: int,
    raw: Seq<u8>,
    prev: Seq<u8>,
    out: Seq<u8>,
    k: nat,
) -> (int, Option<int>)
    decreases k,
{
    if k == 0 {
        (0, None)
    } else {
        let (b, w) = brute_pick(level, limit, bpp, alpha, raw, prev, out, (k - 1) as nat);
        let l = brute_len(level, limit, out, attempt_row(bpp, alpha, raw, prev, k - 1));
        if w is None || l < b {
            (l, Some(k - 1))
        } else {
            (b, w)
        }
    }
}

/// The attempts that `Brute` picks for the first `k` lines: the first filter
/// for a line of zeros, else the first filter whose compressed form, with as
/// many bytes of the output before it as `num_lines` lines of its length hold,
/// is the shortest.
pub open spec fn brute_winners(
    num_lines: usize,
    level: u8,
    layout: Seq<LineShape>,
    data: Seq<u8>,
    bpp: int,
    alpha: int,
    k: nat,
) -> Seq<Option<int>>
    decreases k,
{
    if k == 0 {
        Seq::empty()
    } else {
        let before = brute_winners(num_lines, level, layout, data, bpp, alpha, (k - 1) as nat);
        let i = k - 1;
        let lines = heuristic_lines(layout, data, bpp, alpha, before, i as nat);
        let raw = line_of(layout, data, 0, i);
        if forall|j: int| 0 <= j < raw.len() ==> raw[j] == 0 {
            before.push(Some(0))
        } else {
            let out = stream_of(layout, bpp, winner_filters(before), lines);
            let limit = (raw.len() + 1) * num_lines;
            before.push(brute_pick(level, limit, bpp, alpha, raw, prev_of(layout, lines, i), out, 5).1)
        }
    }
}

/// The attempts that a heuristic strategy picks for the first `k` lines.
pub open spec fn strategy_winners(
    strategy: FilterStrategy,
    layout: Seq<LineShape>,
    data: Seq<u8>,
    bpp: int,
    alpha: int,
    k: nat,
) -> Seq<Option<int>> {
    match strategy {
        FilterStrategy::Brute { num_lines, level } => brute_winners(num_lines, level, layout, data, bpp, alpha, k),
        _ => heuristic_winners(strategy, layout, data, bpp, alpha, k),
    }
}

/// The filters that the winning attempts used (the first filter where none won).
pub open spec fn winner_filters(w: Seq<Option<int>>) -> Seq<RowFilter> {
    Seq::new(
        w.len(),
        |i: int|
            match w[i] {
                Some(a) => filter_at(a),
                None => RowFilter::NoFilter,
            },
    )
}

proof fn lemma_heuristic_lines_prefix(
    layout: Seq<LineShape>,
    data: Seq<u8>,
    bpp: int,
    alpha: int,
    w1: Seq<Option<int>>,
    w2: Seq<Option<int>>,
    k: nat,
)
    requires
        forall|i: int| 0 <= i < k ==> w1[i] == w2[i],
    ensures
        heuristic_lines(layout, data, bpp, alpha, w1, k) == heuristic_lines(layout, data, bpp, alpha, w2, k),
    decreases k,
{
    if k > 0 {
        lemma_heuristic_lines_prefix(layout, data, bpp, alpha, w1, w2, (k - 1) as nat);
    }
}

proof fn lemma_heuristic_lines_len(
    layout: Seq<LineShape>,
    data: Seq<u8>,
    bpp: int,
    alpha: int,
    w: Seq<Option<int>>,
    k: nat,
)
    ensures
        heuristic_lines(layout, data, bpp, alpha, w, k).len() == k,
    decreases k,
{
    if k > 0 {
        lemma_heuristic_lines_len(layout, data, bpp, alpha, w, (k - 1) as nat);
    }
}

/// The filtered stream of the lines `lines`, line `i` filtered with `fs[i]`,
/// for as many lines as `lines` holds.
pub open spec fn stream_of(layout: Seq<LineShape>, bpp: int, fs: Seq<RowFilter>, lines: Seq<Seq<u8>>) -> Seq<u8> {
    concat(
        Seq::new(
            lines.len(),
            |i: int| filtered_row(fs[i], bpp, lines[i], prev_line_of(layout, lines, i)),
        ),
    )
}

proof fn lemma_stream_push(
    layout: Seq<LineShape>,
    bpp: int,
    fs: Seq<RowFilter>,
    lines: Seq<Seq<u8>>,
    l: Seq<u8>,
)
    requires
        fs.len() > lines.len(),
    ensures
        stream_of(layout, bpp, fs, lines.push(l)) == stream_of(layout, bpp, fs, lines) + filtered_row(
            fs[lines.len() as int],
            bpp,
            l,
            prev_line_of(layout, lines.push(l), lines.len() as int),
        ),
{
    let k = lines.len() as int;
    let l2 = lines.push(l);
    let big = Seq::new(
        l2.len(),
        |i: int| filtered_row(fs[i], bpp, l2[i], prev_line_of(layout, l2, i)),
    );
    let small = Seq::new(
        lines.len(),
        |i: int| filtered_row(fs[i], bpp, lines[i], prev_line_of(layout, lines, i)),
    );
    assert(big.drop_last() =~= small) by {
        assert forall|i: int| 0 <= i < k implies big[i] == small[i] by {
            assert(l2[i] == lines[i]);
            if i > 0 {
                assert(l2[i - 1] == lines[i - 1]);
            }
        }
    }
    lemma_concat_push(small, big.last());
    assert(big =~= small.push(big.last()));
}

proof fn lemma_stream_fs(layout: Seq<LineShape>, bpp: int, fs1: Seq<RowFilter>, fs2: Seq<RowFilter>, lines: Seq<Seq<u8>>)
    requires
        forall|i: int| 0 <= i < lines.len() ==> fs1[i] == fs2[i],
    ensures
        stream_of(layout, bpp, fs1, lines) == stream_of(layout, bpp, fs2, lines),
{
    assert(Seq::new(
        lines.len(),
        |i: int| filtered_row(fs1[i], bpp, lines[i], prev_line_of(layout, lines, i)),
    ) =~= Seq::new(
        lines.len(),
        |i: int| filtered_row(fs2[i], bpp, lines[i], prev_line_of(layout, lines, i)),
    ));
}

/// The scanlines of a valid image each hold a pixel, and the lines of one
/// pass share a length.
pub proof fn lemma_image_layout(ihdr: IhdrData)
    requires
        ihdr.spec_valid(),
    ensures
        layout_ok(ihdr.spec_layout(), ihdr.spec_bytes_pp()),
        forall|k: int| 0 <= k < ihdr.spec_layout().len() ==> (#[trigger] ihdr.spec_layout()[k]).1 >= 0,
{
    lemma_layout_lines(ihdr);
    let layout = ihdr.spec_layout();
    assert(ihdr.spec_bytes_pp() >= 1);
    assert forall|i: int| 0 < i < layout.len() && #[trigger] layout[i].0 == layout[i - 1].0 implies layout[i].1
        == layout[i - 1].1 by {
        assert(layout[i].1 == line_bytes(ihdr.spec_tag_width(layout[i].0), ihdr.spec_bpp()));
        assert(layout[i - 1].1 == line_bytes(ihdr.spec_tag_width(layout[i - 1].0), ihdr.spec_bpp()));
    }
}

proof fn lemma_filter_at_code(f: RowFilter)
    ensures
        filter_at(f.spec_code() as int) == f,
{
}

proof fn lemma_alpha_chain_len(bpp: int, alpha: int, raw: Seq<u8>, prev: Seq<u8>, k: nat)
    ensures
        alpha_chain(bpp, alpha, raw, prev, k).len() == raw.len(),
    decreases k,
{
    if alpha != 0 && k > 0 {
        lemma_alpha_chain_len(bpp, alpha, raw, prev, (k - 1) as nat);
        lemma_optimized_alpha_len(
            filter_at(k - 1),
            bpp,
            bpp - alpha,
            alpha_chain(bpp, alpha, raw, prev, (k - 1) as nat),
            prev,
        );
    }
}

/// Whether every byte is zero.
fn all_zero(v: &[u8]) -> (r: bool)
    ensures
        r == (forall|i: int| 0 <= i < v@.len() ==> v@[i] == 0),
{
    let mut i: usize = 0;
    while i < v.len()
        invariant
            i <= v.len(),
            forall|j: int| 0 <= j < i ==> v@[j] == 0,
        decreases v.len() - i,
    {
        if v[i] != 0 {
            return false;
        }
        i += 1;
    }
    true
}

/// Whether a heuristic strategy always finds a winning attempt.
pub open spec fn always_wins(strategy: FilterStrategy) -> bool {
    strategy is MinSum || strategy is Bigrams || strategy is Brute
}

/// Filter one line that is not all zeros with a heuristic strategy: try every
/// filter in turn on one copy of the line, append the row of the last attempt
/// that won (zeros when none won), and give its filter and the line as that
/// attempt left it, with the attempt that won.
fn filter_heuristic_line(
    ev: &mut StrategyEvaluator,
    bpp: usize,
    raw: Vec<u8>,
    prev: &[u8],
    out: &mut Vec<u8>,
    alpha_bytes: usize,
) -> (r: (RowFilter, Vec<u8>, Ghost<Option<int>>))
    requires
        old(ev).inv(),
        is_heuristic(old(ev).kind()),
        raw@.len() >= bpp,
        raw@.len() < usize::MAX,
        raw@.len() == prev@.len(),
        alpha_bytes <= bpp,
        old(ev).kind() matches FilterStrategy::Brute { num_lines, .. } ==> raw_bound((raw@.len() + 1) * num_lines)
            <= usize::MAX,
    ensures
        final(ev).inv(),
        final(ev).kind() == old(ev).kind(),
        ({
            let w = r.2@;
            let alpha = alpha_bytes as int;
            &&& r.0 == (match w {
                Some(a) => filter_at(a),
                None => RowFilter::NoFilter,
            })
            &&& r.1@ == (match w {
                Some(a) => alpha_chain(bpp as int, alpha, raw@, prev@, (a + 1) as nat),
                None => zeros(raw@.len() as int),
            })
            &&& final(out)@ == old(out)@ + filtered_row(r.0, bpp as int, r.1@, prev@)
            &&& !(old(ev).kind() is Brute) ==> w == pick(
                old(ev).kind(),
                bpp as int,
                alpha,
                raw@,
                prev@,
                5,
            ).1
            &&& old(ev).kind() matches FilterStrategy::Brute { num_lines, level } ==> w == brute_pick(
                level,
                (raw@.len() + 1) * num_lines,
                bpp as int,
                alpha,
                raw@,
                prev@,
                old(out)@,
                5,
            ).1
            &&& always_wins(old(ev).kind()) ==> w is Some
            &&& w matches Some(a) ==> 0 <= a < 5
        }),
{
    let ghost kind = ev.kind();
    let ghost alpha = alpha_bytes as int;
    let ghost bi = bpp as int;
    let len = raw.len();
    let mut line_data = raw;
    let ghost rawv = line_data@;
    let offset = out.len();
    let ghost out0 = out@;
    ev.reset(len + 1);
    let mut best_line = zero_vec(len + 1);
    let mut best_raw = zero_vec(len);
    let mut best_filter = RowFilter::NoFilter;
    let ghost mut wa: Option<int> = None;
    let fl = RowFilter::all();
    let mut a: usize = 0;
    while a < 5
        invariant
            ev.inv(),
            ev.kind() == kind,
            is_heuristic(kind),
            kind matches FilterStrategy::Brute { .. } ==> (a == 0 ==> ev.brute_room()),
            kind matches FilterStrategy::Brute { num_lines, level } ==> (*ev matches StrategyEvaluator::Brute {
                limit,
                buffer,
                ..
            } && limit == (len + 1) * num_lines && (a > 0 ==> buffer@.len() + 1 == brute_pick(
                level,
                limit as int,
                bi,
                alpha,
                rawv,
                prev@,
                out0,
                a as nat,
            ).0 && wa == brute_pick(level, limit as int, bi, alpha, rawv, prev@, out0, a as nat).1)),
            !(kind is Brute) ==> (ev.best(), wa) == pick(kind, bi, alpha, rawv, prev@, a as nat),
            always_wins(kind) && a > 0 ==> wa is Some,
            wa matches Some(x) ==> 0 <= x < a,
            a <= 5,
            bi == bpp,
            alpha == alpha_bytes,
            alpha_bytes <= bpp,
            len == rawv.len(),
            rawv.len() >= bpp,
            rawv.len() == prev@.len(),
            forall|k: int| 0 <= k < 5 ==> (#[trigger] fl[k]).spec_code() == k,
            line_data@ == alpha_chain(bi, alpha, rawv, prev@, a as nat),
            out@ == out0,
            offset == out0.len(),
            best_filter == (match wa {
                Some(x) => filter_at(x),
                None => RowFilter::NoFilter,
            }),
            best_raw@ == (match wa {
                Some(x) => alpha_chain(bi, alpha, rawv, prev@, (x + 1) as nat),
                None => zeros(len as int),
            }),
            best_line@ == (match wa {
                Some(x) => attempt_row(bi, alpha, rawv, prev@, x),
                None => zeros(len + 1),
            }),
        decreases 5 - a,
    {
        let f = fl[a];
        proof {
            lemma_filter_at_code(f);
            lemma_alpha_chain_len(bi, alpha, rawv, prev@, a as nat);
        }
        f.filter_line_onto(bpp, &mut line_data, prev, out, alpha_bytes);
        assert(line_data@ == alpha_chain(bi, alpha, rawv, prev@, (a + 1) as nat));
        let ghost row = attempt_row(bi, alpha, rawv, prev@, a as int);
        assert(out@ == out0 + row);
        assert(tail(out@, offset as int) =~= row);
        let ghost ev0 = *ev;
        let won = ev.evaluate(out.as_slice(), offset);
        proof {
            match kind {
                FilterStrategy::Brute { num_lines, level } => {
                    let limit = (len + 1) * num_lines;
                    let l = brute_len(level, limit as int, out0, row);
                    let p0 = brute_pick(level, limit as int, bi, alpha, rawv, prev@, out0, a as nat);
                    assert(ev0 matches StrategyEvaluator::Brute { limit: l0, .. } && l0 == limit);
                    assert(brute_pick(level, limit as int, bi, alpha, rawv, prev@, out0, (a + 1) as nat) == (if p0.1
                        is None || l < p0.0 {
                        (l, Some(a as int))
                    } else {
                        p0
                    }));
                },
                _ => {},
            }
            if a == 0 && won == false {
                if kind is MinSum {
                    lemma_minsum_bound(row);
                } else if kind is Bigrams {
                    lemma_distinct_len(row, num_bigrams(row));
                }
            }
        }
        if won {
            best_line = copy_range(out.as_slice(), offset, out.len());
            best_raw = copy_range(line_data.as_slice(), 0, line_data.len());
            best_filter = f;
            proof {
                wa = Some(a as int);
                assert(line_data@.subrange(0, line_data@.len() as int) =~= line_data@);
            }
        }
        out.truncate(offset);
        assert(out@ =~= out0);
        a += 1;
    }
    push_all(out, best_line.as_slice());
    proof {
        match wa {
            Some(x) => {},
            None => {
                assert(filtered_row(RowFilter::NoFilter, bi, zeros(len as int), prev@) =~= zeros(len + 1));
            },
        }
    }
    (best_filter, best_raw, Ghost(wa))
}

/// The filter that `filter_image` uses for each line: the one the strategy
/// names, or the one the heuristic picks.
pub open spec fn result_filters(
    strategy: FilterStrategy,
    layout: Seq<LineShape>,
    data: Seq<u8>,
    bpp: int,
    alpha: int,
) -> Seq<RowFilter> {
    if !is_heuristic(strategy) {
        strategy_filters(strategy, layout.len() as int)
    } else {
        winner_filters(strategy_winners(strategy, layout, data, bpp, alpha, layout.len()))
    }
}

/// The lines that `filter_image` filters with the filters `fs`: the image
/// lines, after alpha optimisation when it is on (and zeros for a line on
/// which no heuristic attempt won).
pub open spec fn result_lines(
    strategy: FilterStrategy,
    fs: Seq<RowFilter>,
    layout: Seq<LineShape>,
    data: Seq<u8>,
    bpp: int,
    alpha: int,
) -> Seq<Seq<u8>> {
    if !is_heuristic(strategy) {
        alpha_lines(layout, data, bpp, fs, alpha, layout.len())
    } else {
        heuristic_lines(layout, data, bpp, alpha, strategy_winners(strategy, layout, data, bpp, alpha, layout.len()), layout.len())
    }
}

/// Whether some attempt won on every line: always so but for `Entropy` and
/// `BigEnt`, whose scores can equal the starting best on huge lines.
pub open spec fn every_line_won(
    strategy: FilterStrategy,
    layout: Seq<LineShape>,
    data: Seq<u8>,
    bpp: int,
    alpha: int,
) -> bool {
    (strategy is Entropy || strategy is BigEnt) ==> forall|i: int|
        0 <= i < layout.len() ==> (#[trigger] heuristic_winners(strategy, layout, data, bpp, alpha, layout.len())[i]) is Some
}

proof fn lemma_alpha_lines_plain(layout: Seq<LineShape>, data: Seq<u8>, bpp: int, fs: Seq<RowFilter>, k: nat)
    requires
        k <= layout.len(),
    ensures
        alpha_lines(layout, data, bpp, fs, 0, k) == image_lines(layout, data).take(k as int),
    decreases k,
{
    if k > 0 {
        lemma_alpha_lines_plain(layout, data, bpp, fs, (k - 1) as nat);
        assert(image_lines(layout, data).take(k as int) =~= image_lines(layout, data).take(k - 1).push(
            line_of(layout, data, 0, k - 1),
        ));
    }
}

proof fn lemma_heuristic_lines_plain(layout: Seq<LineShape>, data: Seq<u8>, bpp: int, w: Seq<Option<int>>, k: nat)
    requires
        k <= layout.len(),
        forall|i: int| 0 <= i < k ==> (#[trigger] w[i]) is Some,
    ensures
        heuristic_lines(layout, data, bpp, 0, w, k) == image_lines(layout, data).take(k as int),
    decreases k,
{
    if k > 0 {
        lemma_heuristic_lines_plain(layout, data, bpp, w, (k - 1) as nat);
        assert(w[k - 1] is Some);
        assert(image_lines(layout, data).take(k as int) =~= image_lines(layout, data).take(k - 1).push(
            line_of(layout, data, 0, k - 1),
        ));
    }
}

proof fn lemma_alpha_chain_same(bpp: int, alpha: int, raw: Seq<u8>, prev: Seq<u8>, k: nat)
    requires
        0 <= alpha <= bpp,
        bpp > 0,
    ensures
        same_but_transparent(alpha_chain(bpp, alpha, raw, prev, k), raw, bpp, bpp - alpha),
    decreases k,
{
    if alpha != 0 && k > 0 {
        lemma_alpha_chain_same(bpp, alpha, raw, prev, (k - 1) as nat);
        let c = alpha_chain(bpp, alpha, raw, prev, (k - 1) as nat);
        lemma_optimized_alpha_same(filter_at(k - 1), bpp, bpp - alpha, c, prev);
        lemma_same_trans(alpha_chain(bpp, alpha, raw, prev, k), c, raw, bpp, bpp - alpha);
    }
}

/// With alpha optimisation, each line that a heuristic attempt won differs
/// from the image line only in colour bytes of fully transparent pixels.
proof fn lemma_heuristic_lines_same(
    layout: Seq<LineShape>,
    data: Seq<u8>,
    bpp: int,
    alpha: int,
    w: Seq<Option<int>>,
    k: nat,
)
    requires
        0 <= alpha <= bpp,
        bpp > 0,
        k <= layout.len(),
        forall|i: int| 0 <= i < k ==> (#[trigger] w[i]) is Some,
    ensures
        heuristic_lines(layout, data, bpp, alpha, w, k).len() == k,
        forall|i: int|
            0 <= i < k ==> same_but_transparent(
                #[trigger] heuristic_lines(layout, data, bpp, alpha, w, k)[i],
                line_of(layout, data, 0, i),
                bpp,
                bpp - alpha,
            ),
    decreases k,
{
    if k > 0 {
        lemma_heuristic_lines_same(layout, data, bpp, alpha, w, (k - 1) as nat);
        let before = heuristic_lines(layout, data, bpp, alpha, w, (k - 1) as nat);
        let i = k - 1;
        let a = w[i]->0;
        lemma_alpha_chain_same(bpp, alpha, line_of(layout, data, 0, i), prev_of(layout, before, i), (a + 1) as nat);
        assert forall|j: int| 0 <= j < k implies same_but_transparent(
            #[trigger] heuristic_lines(layout, data, bpp, alpha, w, k)[j],
            line_of(layout, data, 0, j),
            bpp,
            bpp - alpha,
        ) by {
            if j < k - 1 {
                assert(heuristic_lines(layout, data, bpp, alpha, w, k)[j] == before[j]);
            }
        }
    }
}

/// With alpha optimisation, each line differs from the image line only in
/// colour bytes of fully transparent pixels.
proof fn lemma_alpha_lines_same(layout: Seq<LineShape>, data: Seq<u8>, bpp: int, fs: Seq<RowFilter>, alpha: int, k: nat)
    requires
        0 <= alpha <= bpp,
        bpp > 0,
        k <= layout.len(),
    ensures
        alpha_lines(layout, data, bpp, fs, alpha, k).len() == k,
        forall|i: int|
            0 <= i < k ==> same_but_transparent(
                #[trigger] alpha_lines(layout, data, bpp, fs, alpha, k)[i],
                line_of(layout, data, 0, i),
                bpp,
                bpp - alpha,
            ),
    decreases k,
{
    if k > 0 {
        lemma_alpha_lines_same(layout, data, bpp, fs, alpha, (k - 1) as nat);
        let before = alpha_lines(layout, data, bpp, fs, alpha, (k - 1) as nat);
        let i = k - 1;
        let raw = line_of(layout, data, 0, i);
        if alpha != 0 {
            let prev = if starts_pass(layout, i) {
                zeros(layout[i].1)
            } else {
                before.last()
            };
            lemma_optimized_alpha_same(fs[i], bpp, bpp - alpha, raw, prev);
        }
        assert forall|j: int| 0 <= j < k implies same_but_transparent(
            #[trigger] alpha_lines(layout, data, bpp, fs, alpha, k)[j],
            line_of(layout, data, 0, j),
            bpp,
            bpp - alpha,
        ) by {
            if j < k - 1 {
                assert(alpha_lines(layout, data, bpp, fs, alpha, k)[j] == before[j]);
            }
        }
    }
}

pub proof fn lemma_concat_image_lines(layout: Seq<LineShape>, data: Seq<u8>, k: nat)
    requires
        k <= layout.len(),
        forall|j: int| 0 <= j < layout.len() ==> (#[trigger] layout[j]).1 >= 0,
        data.len() == layout_size(layout, 0),
    ensures
        concat(image_lines(layout, data).take(k as int)) == data.subrange(0, layout_size(layout.take(k as int), 0)),
    decreases k,
{
    lemma_layout_size_nonneg(layout, 0);
    if k == 0 {
        assert(layout.take(0) =~= Seq::<LineShape>::empty());
        assert(concat(image_lines(layout, data).take(0)) =~= Seq::<u8>::empty());
        assert(data.subrange(0, 0) =~= Seq::<u8>::empty());
    } else {
        lemma_concat_image_lines(layout, data, (k - 1) as nat);
        let lines = image_lines(layout, data);
        assert(lines.take(k as int) =~= lines.take(k - 1).push(lines[k - 1]));
        lemma_concat_push(lines.take(k - 1), lines[k - 1]);
        assert(layout.take(k as int).drop_last() =~= layout.take(k - 1));
        let t = layout.take(k - 1);
        assert forall|j: int| 0 <= j < t.len() implies (#[trigger] t[j]).1 >= 0 by {
            assert(t[j] == layout[j]);
        }
        lemma_layout_size_nonneg(t, 0);
        assert(layout_size(layout.take(k as int), 0) <= layout_size(layout, 0));
        assert(data.subrange(0, layout_size(layout.take(k as int), 0)) =~= data.subrange(
            0,
            layout_size(t, 0),
        ) + line_of(layout, data, 0, k - 1));
    }
}

/// The number of palette entries that the tRNS chunk has to list: up to the
/// last entry that is not fully opaque.
pub open spec fn trns_len(palette: Seq<Rgba8>) -> int
    decreases palette.len(),
{
    if palette.len() == 0 {
        0
    } else if palette.last().a != 255 {
        palette.len() as int
    } else {
        trns_len(palette.drop_last())
    }
}

pub proof fn lemma_trns_len(palette: Seq<Rgba8>)
    ensures
        0 <= trns_len(palette) <= palette.len(),
    decreases palette.len(),
{
    if palette.len() > 0 {
        lemma_trns_len(palette.drop_last());
    }
}

/// The size of the PLTE and tRNS chunks of an image with this color type.
pub open spec fn spec_key_chunks_size(color_type: ColorType) -> int {
    match color_type {
        ColorType::Indexed { palette } => {
            let plte = 12 + palette@.len() as int * 3;
            if trns_len(palette@) == 0 {
                plte
            } else {
                plte + 12 + trns_len(palette@)
            }
        },
        ColorType::Grayscale { transparent_shade: Some(_) } => 14int,
        ColorType::RGB { transparent_color: Some(_) } => 18int,
        _ => 0int,
    }
}

/// How many palette entries the tRNS chunk has to list.
pub fn palette_trns_len(palette: &Vec<Rgba8>) -> (r: usize)
    ensures
        r == trns_len(palette@),
{
    let mut n = palette.len();
    assert(palette@.take(n as int) =~= palette@);
    while n > 0
        invariant
            n <= palette@.len(),
            trns_len(palette@) == trns_len(palette@.take(n as int)),
        decreases n,
    {
        assert(palette@.take(n as int).drop_last() =~= palette@.take(n - 1));
        assert(palette@.take(n as int).last() == palette@[n - 1]);
        if palette[n - 1].a != 255 {
            return n;
        }
        n -= 1;
    }
    n
}

/// A scanline of an image
#[derive(Debug, Clone)]
pub struct ScanLine {
    /// The filter type byte (0 when the data has none)
    pub filter: u8,
    /// The bytes of the line
    pub data: Vec<u8>,
    /// The interlacing pass of the line, if any
    pub pass: Option<u8>,
}

/// The data of each line.
pub open spec fn lines_data(v: Seq<ScanLine>) -> Seq<Seq<u8>> {
    v.map_values(|l: ScanLine| l.data@)
}

impl PngImage {
    /// Well-formedness: a valid header, and data that holds exactly the
    /// unfiltered scanlines that the header lays out.
    pub open spec fn wf(&self) -> bool {
        &&& self.ihdr.spec_valid()
        &&& self.ihdr.spec_raw_data_size() <= usize::MAX
        &&& self.data.len() == layout_size(self.ihdr.spec_layout(), 0)
    }

    /// Return the number of channels in the image, based on color type
    pub fn channels_per_pixel(&self) -> (r: usize)
        ensures
            r == self.ihdr.color_type.spec_channels(),
    {
        self.ihdr.color_type.channels_per_pixel() as usize
    }

    /// Return the number of bytes per channel in the image
    pub fn bytes_per_channel(&self) -> (r: usize)
        ensures
            r == (if self.ihdr.bit_depth == BitDepth::Sixteen {
                2int
            } else {
                1int
            }),
    {
        match self.ihdr.bit_depth {
            BitDepth::Sixteen => 2,
            _ => 1,
        }
    }

    fn bytes_per_pixel(&self) -> (r: usize)
        ensures
            r == self.ihdr.spec_bytes_pp(),
            1 <= r <= 8,
    {
        self.bytes_per_channel() * self.channels_per_pixel()
    }

    /// Reverse all filters applied on the image, returning an unfiltered
    /// stream; `self.data` holds the filtered scanlines
    fn unfilter_image(&self) -> (r: PngResult<Vec<u8>>)
        requires
            self.ihdr.spec_valid(),
            self.data.len() == self.ihdr.spec_raw_data_size(),
        ensures
            r matches Ok(v) ==> spec_unfilter_image(
                self.ihdr.spec_layout(),
                self.data@,
                self.ihdr.spec_bytes_pp(),
            ) == Some(v@),
            r is Err <==> spec_unfilter_image(
                self.ihdr.spec_layout(),
                self.data@,
                self.ihdr.spec_bytes_pp(),
            ) is None,
            r matches Err(e) ==> e == PngError::InvalidData,
    {
        let layout = self.ihdr.line_layout();
        let ghost spec = self.ihdr.spec_layout();
        let bpp = self.bytes_per_pixel();
        proof {
            lemma_layout_lines(self.ihdr);
            lemma_layout_size_nonneg(spec, 1);
        }
        let mut out: Vec<u8> = Vec::new();
        let mut prev: Vec<u8> = Vec::new();
        let mut pos: usize = 0;
        let mut k: usize = 0;
        let ghost mut lines: Seq<Seq<u8>> = Seq::empty();
        while k < layout.len()
            invariant
                spec == self.ihdr.spec_layout(),
                self.ihdr.spec_valid(),
                self.data.len() == layout_size(spec, 1),
                bpp == self.ihdr.spec_bytes_pp(),
                layout@.len() == spec.len(),
                forall|j: int|
                    0 <= j < layout@.len() ==> (#[trigger] layout@[j]).0 == spec[j].0 && layout@[j].1
                        == spec[j].1,
                forall|j: int|
                    0 <= j < spec.len() ==> {
                        let e = #[trigger] spec[j];
                        &&& self.ihdr.spec_tag_width(e.0) >= 1
                        &&& e.1 == line_bytes(self.ihdr.spec_tag_width(e.0), self.ihdr.spec_bpp())
                        &&& e.1 >= self.ihdr.spec_bytes_pp()
                    },
                forall|j: int|
                    0 <= j <= spec.len() ==> layout_size(#[trigger] spec.take(j), 1) <= layout_size(
                        spec,
                        1,
                    ),
                k <= spec.len(),
                pos == layout_size(spec.take(k as int), 1),
                unfilter_lines(spec, self.data@, bpp as int, k as nat) == Some(lines),
                out@ == concat(lines),
                k > 0 ==> prev@ == lines.last(),
                lines.len() == k,
            decreases spec.len() - k,
        {
            assert(spec.take(k + 1).drop_last() =~= spec.take(k as int));
            assert(layout_size(spec.take(k + 1), 1) <= layout_size(spec, 1));
            let len = layout[k].1 as usize;
            let code = self.data[pos];
            let filter = match RowFilter::try_from(code) {
                Ok(f) => f,
                Err(_) => {
                    proof {
                        lemma_unfilter_lines_none(spec, self.data@, bpp as int, (k + 1) as nat, spec.len());
                    }
                    return Err(PngError::InvalidData);
                },
            };
            if k == 0 || !same_tag(layout[k].0, layout[k - 1].0) {
                prev = zero_vec(len);
            } else {
                proof {
                    lemma_unfilter_lines_shape(spec, self.data@, bpp as int, k as nat);
                }
            }
            let line = copy_range(self.data.as_slice(), pos + 1, pos + 1 + len);
            let mut buf: Vec<u8> = Vec::new();
            filter.unfilter_line(bpp, line.as_slice(), prev.as_slice(), &mut buf);
            push_all(&mut out, buf.as_slice());
            proof {
                lemma_concat_push(lines, buf@);
                lines = lines.push(buf@);
            }
            prev = buf;
            pos = pos + 1 + len;
            k += 1;
        }
        assert(spec.take(spec.len() as int) =~= spec);
        Ok(out)
    }

    /// The alpha bytes of each pixel that filtering optimises when asked to:
    /// the last channel, for color types with alpha.
    pub open spec fn spec_alpha_bytes(&self, optimize_alpha: bool) -> int {
        if optimize_alpha && self.ihdr.color_type.spec_has_alpha() {
            if self.ihdr.bit_depth == BitDepth::Sixteen {
                2
            } else {
                1
            }
        } else {
            0
        }
    }

    /// Filter every line with the filter that a basic or predefined strategy
    /// names for it.
    fn filter_fixed(&self, strategy: &FilterStrategy, alpha_bytes: usize) -> (out: Vec<u8>)
        requires
            self.wf(),
            !is_heuristic(*strategy),
            alpha_bytes <= self.ihdr.spec_bytes_pp(),
        ensures
            ({
                let layout = self.ihdr.spec_layout();
                let n = layout.len() as int;
                let bpp = self.ihdr.spec_bytes_pp();
                let fs = strategy_filters(*strategy, n);
                let lines = alpha_lines(layout, self.data@, bpp, fs, alpha_bytes as int, n as nat);
                &&& out@ == filtered_stream(layout, bpp, fs, lines)
                &&& lines.len() == n
                &&& forall|j: int| 0 <= j < n ==> (#[trigger] lines[j]).len() == layout[j].1
            }),
    {
        let layout = self.ihdr.line_layout();
        let ghost spec = self.ihdr.spec_layout();
        let ghost n = spec.len() as int;
        let bpp = self.bytes_per_pixel();
        let ghost bi = bpp as int;
        let ghost alpha = alpha_bytes as int;
        let ghost fs = strategy_filters(*strategy, n);
        proof {
            lemma_image_layout(self.ihdr);
            lemma_layout_size_nonneg(spec, 0);
        }
        let mut out: Vec<u8> = Vec::new();
        let mut prev: Vec<u8> = Vec::new();
        let mut pos: usize = 0;
        let mut k: usize = 0;
        let ghost mut lines: Seq<Seq<u8>> = Seq::empty();
        while k < layout.len()
            invariant
                self.wf(),
                spec == self.ihdr.spec_layout(),
                n == spec.len(),
                bi == bpp,
                bpp == self.ihdr.spec_bytes_pp(),
                alpha == alpha_bytes,
                alpha_bytes <= bpp,
                !is_heuristic(*strategy),
                fs == strategy_filters(*strategy, n),
                layout_ok(spec, bi),
                layout@.len() == spec.len(),
                forall|j: int|
                    0 <= j < layout@.len() ==> (#[trigger] layout@[j]).0 == spec[j].0 && layout@[j].1
                        == spec[j].1,
                forall|j: int| 0 <= j < spec.len() ==> (#[trigger] spec[j]).1 >= 0,
                forall|j: int|
                    0 <= j <= spec.len() ==> layout_size(#[trigger] spec.take(j), 0) <= layout_size(
                        spec,
                        0,
                    ),
                k <= spec.len(),
                pos == layout_size(spec.take(k as int), 0),
                lines == alpha_lines(spec, self.data@, bi, fs, alpha, k as nat),
                lines.len() == k,
                forall|j: int| 0 <= j < k ==> (#[trigger] lines[j]).len() == spec[j].1,
                out@ == stream_of(spec, bi, fs, lines),
                k > 0 ==> prev@ == lines.last(),
            decreases spec.len() - k,
        {
            assert(spec.take(k + 1).drop_last() =~= spec.take(k as int));
            assert(layout_size(spec.take(k + 1), 0) <= layout_size(spec, 0));
            let len = layout[k].1 as usize;
            let mut line_data = copy_range(self.data.as_slice(), pos, pos + len);
            assert(line_data@ == line_of(spec, self.data@, 0, k as int));
            if k == 0 || !same_tag(layout[k].0, layout[k - 1].0) {
                prev = zero_vec(len);
            } else {
                assert(spec[k as int].0 == spec[k - 1].0);
            }
            let ghost pv = prev@;
            assert(pv == prev_of(spec, lines, k as int));
            let f = match strategy {
                FilterStrategy::Basic(f) => *f,
                FilterStrategy::Predefined(v) => if k < v.len() {
                    v[k]
                } else {
                    RowFilter::NoFilter
                },
                _ => RowFilter::NoFilter,
            };
            assert(f == fs[k as int]);
            f.filter_line_onto(bpp, &mut line_data, prev.as_slice(), &mut out, alpha_bytes);
            proof {
                if alpha != 0 {
                    lemma_optimized_alpha_len(f, bi, bi - alpha, line_of(spec, self.data@, 0, k as int), pv);
                }
                lemma_stream_push(spec, bi, fs, lines, line_data@);
                lines = lines.push(line_data@);
            }
            prev = line_data;
            pos = pos + len;
            k += 1;
        }
        assert(stream_of(spec, bi, fs, lines) == filtered_stream(spec, bi, fs, lines));
        out
    }

    /// Filter every line with a heuristic strategy, giving the filtered stream
    /// and the filter used for each line.
    fn filter_heuristic(&self, ev: &mut StrategyEvaluator, alpha_bytes: usize) -> (r: (Vec<u8>, Vec<RowFilter>, Ghost<Seq<Option<int>>>))
        requires
            self.wf(),
            self.ihdr.spec_raw_data_size() <= usize::MAX,
            old(ev).inv(),
            is_heuristic(old(ev).kind()),
            alpha_bytes <= self.ihdr.spec_bytes_pp(),
            old(ev).kind() matches FilterStrategy::Brute { num_lines, .. } ==> forall|i: int|
                0 <= i < self.ihdr.spec_layout().len() ==> raw_bound(
                    (#[trigger] self.ihdr.spec_layout()[i].1 + 1) * num_lines,
                ) <= usize::MAX,
        ensures
            ({
                let layout = self.ihdr.spec_layout();
                let n = layout.len() as int;
                let bpp = self.ihdr.spec_bytes_pp();
                let alpha = alpha_bytes as int;
                let kind = old(ev).kind();
                let w = r.2@;
                &&& w.len() == n
                &&& r.1@ == winner_filters(w)
                &&& r.0@ == filtered_stream(layout, bpp, r.1@, heuristic_lines(layout, self.data@, bpp, alpha, w, n as nat))
                &&& heuristic_lines(layout, self.data@, bpp, alpha, w, n as nat).len() == n
                &&& forall|j: int| 0 <= j < n ==> (#[trigger] heuristic_lines(layout, self.data@, bpp, alpha, w, n as nat)[j]).len() == layout[j].1
                &&& w == strategy_winners(kind, layout, self.data@, bpp, alpha, n as nat)
                &&& always_wins(kind) ==> forall|i: int| 0 <= i < n ==> (#[trigger] w[i]) is Some
            }),
    {
        let layout = self.ihdr.line_layout();
        let ghost spec = self.ihdr.spec_layout();
        let ghost n = spec.len() as int;
        let bpp = self.bytes_per_pixel();
        let ghost bi = bpp as int;
        let ghost alpha = alpha_bytes as int;
        let ghost kind = ev.kind();
        proof {
            lemma_image_layout(self.ihdr);
            lemma_layout_size_nonneg(spec, 0);
            lemma_layout_size_nonneg(spec, 1);
        }
        let mut out: Vec<u8> = Vec::new();
        let mut prev: Vec<u8> = Vec::new();
        let mut used: Vec<RowFilter> = Vec::new();
        let mut pos: usize = 0;
        let mut k: usize = 0;
        let ghost mut lines: Seq<Seq<u8>> = Seq::empty();
        let ghost mut w: Seq<Option<int>> = Seq::empty();
        while k < layout.len()
            invariant
                self.wf(),
                self.ihdr.spec_raw_data_size() <= usize::MAX,
                spec == self.ihdr.spec_layout(),
                n == spec.len(),
                bi == bpp,
                bpp == self.ihdr.spec_bytes_pp(),
                alpha == alpha_bytes,
                alpha_bytes <= bpp,
                ev.inv(),
                ev.kind() == kind,
                is_heuristic(kind),
                kind matches FilterStrategy::Brute { num_lines, .. } ==> forall|i: int|
                    0 <= i < spec.len() ==> raw_bound((#[trigger] spec[i].1 + 1) * num_lines) <= usize::MAX,
                layout_ok(spec, bi),
                layout@.len() == spec.len(),
                forall|j: int|
                    0 <= j < layout@.len() ==> (#[trigger] layout@[j]).0 == spec[j].0 && layout@[j].1
                        == spec[j].1,
                forall|j: int| 0 <= j < spec.len() ==> (#[trigger] spec[j]).1 >= 0,
                forall|j: int|
                    0 <= j <= spec.len() ==> layout_size(#[trigger] spec.take(j), 0) <= layout_size(
                        spec,
                        0,
                    ),
                forall|j: int|
                    0 <= j <= spec.len() ==> layout_size(#[trigger] spec.take(j), 1) <= layout_size(
                        spec,
                        1,
                    ),
                k <= spec.len(),
                pos == layout_size(spec.take(k as int), 0),
                w.len() == k,
                lines == heuristic_lines(spec, self.data@, bi, alpha, w, k as nat),
                lines.len() == k,
                forall|j: int| 0 <= j < k ==> (#[trigger] lines[j]).len() == spec[j].1,
                used@ == winner_filters(w),
                out@ == stream_of(spec, bi, used@, lines),
                k > 0 ==> prev@ == lines.last(),
                w == strategy_winners(kind, spec, self.data@, bi, alpha, k as nat),
                always_wins(kind) ==> forall|j: int| 0 <= j < k ==> (#[trigger] w[j]) is Some,
                forall|j: int| 0 <= j < k ==> ((#[trigger] w[j]) matches Some(a) ==> 0 <= a < 5),
            decreases spec.len() - k,
        {
            assert(spec.take(k + 1).drop_last() =~= spec.take(k as int));
            assert(layout_size(spec.take(k + 1), 0) <= layout_size(spec, 0));
            assert(layout_size(spec.take(k + 1), 1) <= layout_size(spec, 1));
            let len = layout[k].1 as usize;
            proof {
                let t = spec.take(k as int);
                assert forall|j: int| 0 <= j < t.len() implies (#[trigger] t[j]).1 >= 0 by {
                    assert(t[j] == spec[j]);
                }
                lemma_layout_size_nonneg(t, 1);
                assert(spec.take(k + 1).last() == spec[k as int]);
                assert(len + 1 <= layout_size(spec.take(k + 1), 1));
            }
            let mut line_data = copy_range(self.data.as_slice(), pos, pos + len);
            let ghost raw = line_data@;
            assert(raw == line_of(spec, self.data@, 0, k as int));
            if k == 0 || !same_tag(layout[k].0, layout[k - 1].0) {
                prev = zero_vec(len);
            } else {
                assert(spec[k as int].0 == spec[k - 1].0);
            }
            let ghost pv = prev@;
            assert(pv == prev_of(spec, lines, k as int));
            let ghost wk: Option<int>;
            let ghost ob = out@;
            let f: RowFilter;
            if all_zero(line_data.as_slice()) {
                RowFilter::NoFilter.filter_line_onto(bpp, &mut line_data, prev.as_slice(), &mut out, alpha_bytes);
                f = RowFilter::NoFilter;
                proof {
                    wk = Some(0);
                    assert(alpha_chain(bi, alpha, raw, pv, 0) == raw);
                    assert(line_data@ == alpha_chain(bi, alpha, raw, pv, 1));
                }
                prev = line_data;
            } else {
                let (bf, best_raw, Ghost(won)) = filter_heuristic_line(
                    ev,
                    bpp,
                    line_data,
                    prev.as_slice(),
                    &mut out,
                    alpha_bytes,
                );
                f = bf;
                proof {
                    wk = won;
                }
                prev = best_raw;
            }
            proof {
                let w2 = w.push(wk);
                match kind {
                    FilterStrategy::Brute { num_lines, level } => {
                        assert(brute_winners(num_lines, level, spec, self.data@, bi, alpha, (k + 1) as nat) == w2);
                    },
                    _ => {
                        assert(heuristic_winners(kind, spec, self.data@, bi, alpha, (k + 1) as nat) == w2);
                    },
                }
                lemma_heuristic_lines_prefix(spec, self.data@, bi, alpha, w2, w, k as nat);
                let lines2 = heuristic_lines(spec, self.data@, bi, alpha, w2, (k + 1) as nat);
                assert(lines2 == lines.push(prev@));
                match wk {
                    Some(a) => lemma_alpha_chain_len(bi, alpha, raw, pv, (a + 1) as nat),
                    None => {},
                }
                let used2 = winner_filters(w2);
                assert(used2 =~= used@.push(f));
                lemma_stream_fs(spec, bi, used@, used2, lines);
                lemma_stream_push(spec, bi, used2, lines, prev@);
                w = w2;
                lines = lines2;
            }
            used.push(f);
            pos = pos + len;
            k += 1;
        }
        assert(stream_of(spec, bi, used@, lines) == filtered_stream(spec, bi, used@, lines));
        (out, used, Ghost(w))
    }

    /// Apply the strategy's filters to all rows of the image, giving the
    /// filtered stream and the strategy to report: the strategy itself for a
    /// basic or predefined one, the filters picked for each line for a
    /// heuristic one. With `optimize_alpha`, the colour bytes of fully
    /// transparent pixels are first set to what the filter predicts.
    ///
    /// The stream unfilters to the lines that were filtered; with alpha
    /// optimisation off, to the image data itself.
    pub fn filter_image(&self, strategy: FilterStrategy, optimize_alpha: bool) -> (r: (Vec<u8>, FilterStrategy))
        requires
            self.wf(),
            strategy matches FilterStrategy::Brute { num_lines, level } ==> level <= 12 && forall|i: int|
                0 <= i < self.ihdr.spec_layout().len() ==> raw_bound(
                    (#[trigger] self.ihdr.spec_layout()[i].1 + 1) * num_lines,
                ) <= usize::MAX,
        ensures
            ({
                let layout = self.ihdr.spec_layout();
                let n = layout.len() as int;
                let bpp = self.ihdr.spec_bytes_pp();
                let alpha = self.spec_alpha_bytes(optimize_alpha);
                let fs = result_filters(strategy, layout, self.data@, bpp, alpha);
                let lines = result_lines(strategy, fs, layout, self.data@, bpp, alpha);
                &&& fs.len() == n
                &&& r.0@ == filtered_stream(layout, bpp, fs, lines)
                &&& !is_heuristic(strategy) || n == 0 ==> r.1 == strategy
                &&& is_heuristic(strategy) && n > 0 ==> (r.1 matches FilterStrategy::Predefined(v) && v@ == fs)
                &&& spec_unfilter_image(layout, r.0@, bpp) == Some(concat(lines))
                &&& alpha == 0 && every_line_won(strategy, layout, self.data@, bpp, alpha) ==> spec_unfilter_image(
                    layout,
                    r.0@,
                    bpp,
                ) == Some(self.data@)
                &&& alpha > 0 && every_line_won(strategy, layout, self.data@, bpp, alpha) ==> forall|k: int|
                    0 <= k < n ==> same_but_transparent(
                        #[trigger] lines[k],
                        line_of(layout, self.data@, 0, k),
                        bpp,
                        bpp - alpha,
                    )
                &&& alpha == 0 && every_line_won(strategy, layout, self.data@, bpp, alpha) ==> {
                    let fs2 = result_filters(r.1, layout, self.data@, bpp, 0);
                    &&& fs2 == fs
                    &&& filtered_stream(layout, bpp, fs2, result_lines(r.1, fs2, layout, self.data@, bpp, 0)) == r.0@
                }
            }),
    {
        let ghost layout = self.ihdr.spec_layout();
        let ghost n = layout.len() as int;
        let ghost bpp = self.ihdr.spec_bytes_pp();
        let alpha_bytes = if optimize_alpha && self.ihdr.color_type.has_alpha() {
            self.bytes_per_channel()
        } else {
            0
        };
        let ghost alpha = alpha_bytes as int;
        assert(alpha == self.spec_alpha_bytes(optimize_alpha));
        proof {
            lemma_image_layout(self.ihdr);
        }
        match strategy.evaluator() {
            None => {
                let out = self.filter_fixed(&strategy, alpha_bytes);
                let ghost fs = strategy_filters(strategy, n);
                proof {
                    let lines = alpha_lines(layout, self.data@, bpp, fs, alpha, n as nat);
                    lemma_unfilter_filtered_stream(layout, bpp, fs, lines);
                    lemma_alpha_lines_same(layout, self.data@, bpp, fs, alpha, n as nat);
                    if alpha == 0 {
                        lemma_alpha_lines_plain(layout, self.data@, bpp, fs, n as nat);
                        lemma_concat_image_lines(layout, self.data@, n as nat);
                        assert(layout.take(n) =~= layout);
                        assert(image_lines(layout, self.data@).take(n) =~= image_lines(layout, self.data@));
                    }
                }
                (out, strategy)
            },
            Some(mut ev) => {
                let (out, used, Ghost(w)) = self.filter_heuristic(&mut ev, alpha_bytes);
                let ghost fs = used@;
                proof {
                    let lines = heuristic_lines(layout, self.data@, bpp, alpha, w, n as nat);
                    lemma_unfilter_filtered_stream(layout, bpp, fs, lines);
                    if alpha > 0 && every_line_won(strategy, layout, self.data@, bpp, alpha) {
                        lemma_heuristic_lines_same(layout, self.data@, bpp, alpha, w, n as nat);
                    }
                    if alpha == 0 && every_line_won(strategy, layout, self.data@, bpp, alpha) {
                        lemma_heuristic_lines_plain(layout, self.data@, bpp, w, n as nat);
                        lemma_alpha_lines_plain(layout, self.data@, bpp, fs, n as nat);
                        assert(strategy_filters(FilterStrategy::Predefined(used), n) =~= fs);
                        lemma_concat_image_lines(layout, self.data@, n as nat);
                        assert(layout.take(n) =~= layout);
                        assert(image_lines(layout, self.data@).take(n) =~= image_lines(layout, self.data@));
                    }
                }
                if used.len() == 0 {
                    (out, strategy)
                } else {
                    (out, FilterStrategy::Predefined(used))
                }
            },
        }
    }

    /// The image whose header is `ihdr` and whose filtered scanlines, filter
    /// bytes included, are `raw`: unfiltered, when `raw` has exactly the size
    /// that the header lays out and every filter type byte is valid.
    pub fn from_filtered(ihdr: IhdrData, raw: Vec<u8>) -> (r: PngResult<PngImage>)
        requires
            ihdr.spec_valid(),
            ihdr.spec_raw_data_size() <= usize::MAX,
        ensures
            r is Ok <==> raw@.len() == ihdr.spec_raw_data_size() && spec_unfilter_image(
                ihdr.spec_layout(),
                raw@,
                ihdr.spec_bytes_pp(),
            ) is Some,
            r matches Ok(img) ==> img.ihdr == ihdr && img.wf() && spec_unfilter_image(
                ihdr.spec_layout(),
                raw@,
                ihdr.spec_bytes_pp(),
            ) == Some(img.data@),
            r matches Err(e) ==> (raw@.len() != ihdr.spec_raw_data_size() && e == PngError::TruncatedData)
                || (raw@.len() == ihdr.spec_raw_data_size() && e == PngError::InvalidData),
    {
        // Reject files with incorrect width/height or truncated data
        if raw.len() != ihdr.raw_data_size() {
            return Err(PngError::TruncatedData);
        }
        let filtered = PngImage { ihdr, data: raw };
        let data = filtered.unfilter_image()?;
        proof {
            lemma_image_layout(filtered.ihdr);
            lemma_unfilter_lines_shape(
                filtered.ihdr.spec_layout(),
                filtered.data@,
                filtered.ihdr.spec_bytes_pp(),
                filtered.ihdr.spec_layout().len(),
            );
            assert(filtered.ihdr.spec_layout().take(filtered.ihdr.spec_layout().len() as int)
                =~= filtered.ihdr.spec_layout());
        }
        Ok(PngImage { ihdr: filtered.ihdr, data })
    }

    /// Decompress the IDAT stream of an image and unfilter its scanlines.
    pub fn new(ihdr: IhdrData, compressed_data: &[u8]) -> (r: PngResult<PngImage>)
        requires
            ihdr.spec_valid(),
            ihdr.spec_raw_data_size() <= usize::MAX,
        ensures
            r matches Ok(img) ==> (img.ihdr == ihdr && img.wf() && (spec_zlib_inflate(compressed_data@) matches Some(
                v,
            ) && v.len() == ihdr.spec_raw_data_size() && spec_unfilter_image(ihdr.spec_layout(), v, ihdr.spec_bytes_pp())
                == Some(img.data@))),
            r matches Err(e) ==> decode_error(
                e,
                spec_zlib_inflate(compressed_data@),
                ihdr.spec_raw_data_size(),
                ihdr.spec_layout(),
                ihdr.spec_bytes_pp(),
            ),
    {
        let raw_data = inflate(compressed_data, ihdr.raw_data_size())?;
        PngImage::from_filtered(ihdr, raw_data)
    }

    /// Calculate the size of the PLTE and tRNS chunks
    pub fn key_chunks_size(&self) -> (r: usize)
        requires
            self.ihdr.color_type matches ColorType::Indexed { palette } ==> 4 * palette@.len() + 24
                <= usize::MAX,
        ensures
            r == spec_key_chunks_size(self.ihdr.color_type),
    {
        match &self.ihdr.color_type {
            ColorType::Indexed { palette } => {
                let plte = 12 + palette.len() * 3;
                let trns = palette_trns_len(palette);
                proof {
                    lemma_trns_len(palette@);
                }
                if trns == 0 {
                    plte
                } else {
                    plte + 12 + trns
                }
            },
            ColorType::Grayscale { transparent_shade } => if transparent_shade.is_some() {
                12 + 2
            } else {
                0
            },
            ColorType::RGB { transparent_color } => if transparent_color.is_some() {
                12 + 6
            } else {
                0
            },
            _ => 0,
        }
    }

    /// Return an estimate of the output size which can help with evaluation of very small data
    pub fn estimated_output_size(&self, idat_data: &[u8]) -> (r: usize)
        requires
            self.ihdr.color_type matches ColorType::Indexed { palette } ==> 4 * palette@.len() + 24
                <= usize::MAX,
            idat_data@.len() + spec_key_chunks_size(self.ihdr.color_type) <= usize::MAX,
        ensures
            r == idat_data@.len() + spec_key_chunks_size(self.ihdr.color_type),
    {
        idat_data.len() + self.key_chunks_size()
    }

    /// The scanlines of the image, in storage order; with `has_filter`, each
    /// line of the data starts with its filter type byte.
    pub fn scan_lines(&self, has_filter: bool) -> (r: Vec<ScanLine>)
        requires
            self.ihdr.spec_valid(),
            self.data@.len() >= layout_size(self.ihdr.spec_layout(), if has_filter { 1 } else { 0 }),
        ensures
            ({
                let layout = self.ihdr.spec_layout();
                let f = if has_filter { 1int } else { 0int };
                &&& r@.len() == layout.len()
                &&& forall|k: int|
                    0 <= k < layout.len() ==> {
                        &&& (#[trigger] r@[k]).pass == layout[k].0
                        &&& r@[k].data@ == line_of(layout, self.data@, f, k)
                        &&& r@[k].filter == (if has_filter {
                            self.data@[line_start(layout, 1, k)]
                        } else {
                            0u8
                        })
                    }
            }),
    {
        let layout = self.ihdr.line_layout();
        let ghost spec = self.ihdr.spec_layout();
        let ghost f: int = if has_filter { 1 } else { 0 };
        let fb: usize = if has_filter { 1 } else { 0 };
        proof {
            lemma_image_layout(self.ihdr);
            lemma_layout_size_nonneg(spec, f);
        }
        let mut out: Vec<ScanLine> = Vec::new();
        let mut pos: usize = 0;
        let mut k: usize = 0;
        while k < layout.len()
            invariant
                spec == self.ihdr.spec_layout(),
                fb == f,
                f == (if has_filter { 1int } else { 0int }),
                self.data@.len() >= layout_size(spec, f),
                layout@.len() == spec.len(),
                forall|j: int|
                    0 <= j < layout@.len() ==> (#[trigger] layout@[j]).0 == spec[j].0 && layout@[j].1
                        == spec[j].1,
                forall|j: int| 0 <= j < spec.len() ==> (#[trigger] spec[j]).1 >= 0,
                forall|j: int|
                    0 <= j <= spec.len() ==> layout_size(#[trigger] spec.take(j), f) <= layout_size(spec, f),
                k <= spec.len(),
                pos == layout_size(spec.take(k as int), f),
                out@.len() == k,
                forall|j: int|
                    0 <= j < k ==> {
                        &&& (#[trigger] out@[j]).pass == spec[j].0
                        &&& out@[j].data@ == line_of(spec, self.data@, f, j)
                        &&& out@[j].filter == (if has_filter {
                            self.data@[line_start(spec, 1, j)]
                        } else {
                            0u8
                        })
                    },
            decreases spec.len() - k,
        {
            assert(spec.take(k + 1).drop_last() =~= spec.take(k as int));
            assert(spec.take(k + 1).last() == spec[k as int]);
            assert(layout_size(spec.take(k + 1), f) <= layout_size(spec, f));
            assert(layout_size(spec.take(k + 1), f) == pos + spec[k as int].1 + f);
            assert(layout@[k as int].1 == spec[k as int].1);
            assert(pos + spec[k as int].1 + f <= self.data@.len());
            let dlen = self.data.len();
            assert(layout@[k as int].1 <= dlen);
            let len = layout[k].1 as usize;
            let filter = if has_filter {
                self.data[pos]
            } else {
                0
            };
            let data = copy_range(self.data.as_slice(), pos + fb, pos + fb + len);
            out.push(ScanLine { filter, data, pass: layout[k].0 });
            pos = pos + fb + len;
            k += 1;
        }
        out
    }
}

} // verus!
