use vstd::prelude::*;

use crate::colors::{BitDepth, ColorType};
use crate::deflate::{Deflaters, deflate, spec_miniz_zlib, spec_zlib_inflate};
use crate::deflate::zopfli_oxipng::{ZopfliOptions, spec_zopfli_zlib};
use crate::deflate::deflater::raw_bound;
use crate::error::{PngError, PngResult};
use crate::filters::{FilterStrategy, RowFilter};
use crate::headers::{IhdrData, layout_for, layout_size};
use crate::interlace::{changed_interlacing, interlace_outcome};
use crate::palette::{lemma_palette_steps_wf, reduced_outcome, reduced_palette, sorted_outcome, sorted_palette};
use crate::options::Options;
use crate::png_data::PngData;
use crate::png::{PngImage, every_line_won, filtered_stream, result_filters, result_lines, spec_unfilter_image};

verus! {

/// The filter strategy that a filter number of the options names: the five
/// row filters for 0 to 4, then the heuristics: minimum sum (5), entropy (6),
/// distinct bigrams (7), bigram entropy (8) and brute force (9), which
/// compresses `brute_lines` lines at a time at level `brute_level`.
pub open spec fn spec_filter_strategy(f: u8, brute_lines: usize, brute_level: u8) -> Option<FilterStrategy> {
    if f == 0 {
        Some(FilterStrategy::Basic(RowFilter::NoFilter))
    } else if f == 1 {
        Some(FilterStrategy::Basic(RowFilter::Sub))
    } else if f == 2 {
        Some(FilterStrategy::Basic(RowFilter::Up))
    } else if f == 3 {
        Some(FilterStrategy::Basic(RowFilter::Average))
    } else if f == 4 {
        Some(FilterStrategy::Basic(RowFilter::Paeth))
    } else if f == 5 {
        Some(FilterStrategy::MinSum)
    } else if f == 6 {
        Some(FilterStrategy::Entropy)
    } else if f == 7 {
        Some(FilterStrategy::Bigrams)
    } else if f == 8 {
        Some(FilterStrategy::BigEnt)
    } else if f == 9 {
        Some(FilterStrategy::Brute { num_lines: brute_lines, level: brute_level })
    } else {
        None
    }
}

/// The filter strategy that a filter number of the options names.
pub fn filter_strategy(f: u8, brute_lines: usize, brute_level: u8) -> (r: Option<FilterStrategy>)
    ensures
        r == spec_filter_strategy(f, brute_lines, brute_level),
        f == 0 ==> r == Some(FilterStrategy::Basic(RowFilter::NoFilter)),
        f == 1 ==> r == Some(FilterStrategy::Basic(RowFilter::Sub)),
        f == 2 ==> r == Some(FilterStrategy::Basic(RowFilter::Up)),
        f == 3 ==> r == Some(FilterStrategy::Basic(RowFilter::Average)),
        f == 4 ==> r == Some(FilterStrategy::Basic(RowFilter::Paeth)),
        f <= 4 ==> (r matches Some(FilterStrategy::Basic(rf)) && rf.spec_code() == f),
        f == 5 ==> r == Some(FilterStrategy::MinSum),
        f == 6 ==> r == Some(FilterStrategy::Entropy),
        f == 7 ==> r == Some(FilterStrategy::Bigrams),
        f == 8 ==> r == Some(FilterStrategy::BigEnt),
        f == 9 ==> r == Some(FilterStrategy::Brute { num_lines: brute_lines, level: brute_level }),
        f > 9 ==> r is None,
{
    proof {
        lemma_filter_numbers(f, brute_lines, brute_level);
    }
    match f {
        0 => Some(FilterStrategy::none()),
        1 => Some(FilterStrategy::sub()),
        2 => Some(FilterStrategy::up()),
        3 => Some(FilterStrategy::average()),
        4 => Some(FilterStrategy::paeth()),
        5 => Some(FilterStrategy::MinSum),
        6 => Some(FilterStrategy::Entropy),
        7 => Some(FilterStrategy::Bigrams),
        8 => Some(FilterStrategy::BigEnt),
        9 => Some(FilterStrategy::Brute { num_lines: brute_lines, level: brute_level }),
        _ => None,
    }
}

/// The filter numbers of the options: 0 to 4 name the PNG filter types of
/// the same number (None, Sub, Up, Average, Paeth), each filtering every row
/// alike; 5 to 9 name the heuristics MinSum, Entropy, Bigrams, BigEnt and
/// brute force (with the given brute force settings); other numbers name
/// nothing.
pub proof fn lemma_filter_numbers(f: u8, brute_lines: usize, brute_level: u8)
    ensures
        f == 0 ==> spec_filter_strategy(f, brute_lines, brute_level) == Some(FilterStrategy::Basic(RowFilter::NoFilter)),
        f == 1 ==> spec_filter_strategy(f, brute_lines, brute_level) == Some(FilterStrategy::Basic(RowFilter::Sub)),
        f == 2 ==> spec_filter_strategy(f, brute_lines, brute_level) == Some(FilterStrategy::Basic(RowFilter::Up)),
        f == 3 ==> spec_filter_strategy(f, brute_lines, brute_level) == Some(FilterStrategy::Basic(RowFilter::Average)),
        f == 4 ==> spec_filter_strategy(f, brute_lines, brute_level) == Some(FilterStrategy::Basic(RowFilter::Paeth)),
        f <= 4 ==> (spec_filter_strategy(f, brute_lines, brute_level) matches Some(FilterStrategy::Basic(rf))
            && rf.spec_code() == f),
        f == 5 ==> spec_filter_strategy(f, brute_lines, brute_level) == Some(FilterStrategy::MinSum),
        f == 6 ==> spec_filter_strategy(f, brute_lines, brute_level) == Some(FilterStrategy::Entropy),
        f == 7 ==> spec_filter_strategy(f, brute_lines, brute_level) == Some(FilterStrategy::Bigrams),
        f == 8 ==> spec_filter_strategy(f, brute_lines, brute_level) == Some(FilterStrategy::BigEnt),
        f == 9 ==> spec_filter_strategy(f, brute_lines, brute_level) == Some(
            FilterStrategy::Brute { num_lines: brute_lines, level: brute_level },
        ),
        f > 9 ==> spec_filter_strategy(f, brute_lines, brute_level) is None,
{
}

/// The filters and zlib strategies to try. With heuristics, an empty choice
/// is filled from the image: the minimum sum filter (5) and strategy 1 for an
/// image of at least 8 bits per channel without a palette, else no filter (0)
/// and strategy 0.
pub open spec fn spec_choices(
    use_heuristics: bool,
    bit_depth: BitDepth,
    indexed: bool,
    filter: Seq<u8>,
    strategies: Seq<u8>,
) -> (Seq<u8>, Seq<u8>) {
    if !use_heuristics {
        (filter, strategies)
    } else {
        let rich = bit_depth.spec_bits() >= 8 && !indexed;
        (
            if filter.len() == 0 {
                seq![if rich { 5u8 } else { 0u8 }]
            } else {
                filter
            },
            if strategies.len() == 0 {
                seq![if rich { 1u8 } else { 0u8 }]
            } else {
                strategies
            },
        )
    }
}

/// The filters and zlib strategies to try for an image with this header.
pub fn heuristic_choices(opts: &Options, ihdr: &IhdrData) -> (r: (Vec<u8>, Vec<u8>))
    ensures
        (r.0@, r.1@) == spec_choices(
            opts.use_heuristics,
            ihdr.bit_depth,
            ihdr.color_type is Indexed,
            opts.filter@,
            opts.strategies@,
        ),
{
    let mut filter = copy_bytes(&opts.filter);
    let mut strategies = copy_bytes(&opts.strategies);
    if opts.use_heuristics {
        // Heuristically determine which set of options to use
        let indexed = match &ihdr.color_type {
            ColorType::Indexed { .. } => true,
            _ => false,
        };
        let rich = ihdr.bit_depth.as_u8() >= 8 && !indexed;
        if filter.len() == 0 {
            filter.push(if rich { 5 } else { 0 });
        }
        if strategies.len() == 0 {
            strategies.push(if rich { 1 } else { 0 });
        }
        assert(filter@ =~= spec_choices(true, ihdr.bit_depth, indexed, opts.filter@, opts.strategies@).0);
        assert(strategies@ =~= spec_choices(true, ihdr.bit_depth, indexed, opts.filter@, opts.strategies@).1);
    }
    (filter, strategies)
}

/// A copy of the bytes.
fn copy_bytes(v: &Vec<u8>) -> (r: Vec<u8>)
    ensures
        r@ == v@,
{
    let mut r: Vec<u8> = Vec::new();
    let mut i: usize = 0;
    while i < v.len()
        invariant
            i <= v@.len(),
            r@ == v@.take(i as int),
        decreases v@.len() - i,
    {
        r.push(v[i]);
        i += 1;
        assert(r@ =~= v@.take(i as int));
    }
    assert(v@.take(v@.len() as int) =~= v@);
    r
}

/// Whether a trial's compressed data of `len` bytes replaces the best so
/// far: it must be smaller than the best; the first trial only has to be
/// smaller than the original data, unless the interlacing changed or the
/// output is forced.
pub open spec fn spec_is_better(len: int, best: Option<int>, idat_len: int, interlace_changed: bool, force: bool) -> bool {
    match best {
        Some(b) => len < b,
        None => len < idat_len || interlace_changed || force,
    }
}

/// The trial kept among the first `k` trials, by their compressed sizes.
pub open spec fn best_trial(lens: Seq<usize>, k: int, idat_len: int, interlace_changed: bool, force: bool) -> Option<int>
    decreases k,
{
    if k <= 0 {
        None
    } else {
        let prev = best_trial(lens, k - 1, idat_len, interlace_changed, force);
        let best_len = match prev {
            Some(i) => Some(lens[i] as int),
            None => None,
        };
        if spec_is_better(lens[k - 1] as int, best_len, idat_len, interlace_changed, force) {
            Some(k - 1)
        } else {
            prev
        }
    }
}

proof fn lemma_best_trial_range(lens: Seq<usize>, k: int, idat_len: int, interlace_changed: bool, force: bool)
    requires
        0 <= k <= lens.len(),
    ensures
        best_trial(lens, k, idat_len, interlace_changed, force) matches Some(i) ==> 0 <= i < k,
    decreases k,
{
    if k > 0 {
        lemma_best_trial_range(lens, k - 1, idat_len, interlace_changed, force);
    }
}

/// Pick the trial to keep, given the compressed sizes of the trials in the
/// order they were made.
pub fn pick_best(lens: &Vec<usize>, idat_len: usize, interlace_changed: bool, force: bool) -> (r: Option<usize>)
    ensures
        match best_trial(lens@, lens@.len() as int, idat_len as int, interlace_changed, force) {
            Some(i) => r == Some(i as usize),
            None => r is None,
        },
{
    let mut best: Option<usize> = None;
    let mut k: usize = 0;
    while k < lens.len()
        invariant
            k <= lens@.len(),
            match best_trial(lens@, k as int, idat_len as int, interlace_changed, force) {
                Some(i) => best == Some(i as usize),
                None => best is None,
            },
            best matches Some(i) ==> i < k,
        decreases lens@.len() - k,
    {
        proof {
            lemma_best_trial_range(lens@, k as int, idat_len as int, interlace_changed, force);
        }
        let better = match best {
            Some(b) => lens[k] < lens[b],
            None => lens[k] < idat_len || interlace_changed || force,
        };
        if better {
            best = Some(k);
        }
        k += 1;
    }
    best
}

/// Whether the output is not worth writing: it is no smaller than the
/// original file, and neither forced nor asked to change the interlacing.
pub fn already_optimized(original_size: usize, output_len: usize, force: bool, interlace: Option<u8>) -> (r: bool)
    ensures
        r == (original_size <= output_len && !force && interlace is None),
{
    original_size <= output_len && !force && interlace.is_none()
}

/// The stream that filtering the image with `strategy` gives, with alpha
/// optimisation when `optimize_alpha` holds.
pub open spec fn trial_stream(png: PngImage, strategy: FilterStrategy, optimize_alpha: bool) -> Seq<u8> {
    let layout = png.ihdr.spec_layout();
    let bpp = png.ihdr.spec_bytes_pp();
    let alpha = png.spec_alpha_bytes(optimize_alpha);
    let fs = result_filters(strategy, layout, png.data@, bpp, alpha);
    filtered_stream(layout, bpp, fs, result_lines(strategy, fs, layout, png.data@, bpp, alpha))
}

/// Whether the brute force strategy can run on the image: a level libdeflate
/// knows, and a number of lines whose bytes, compressed at worst, fit in
/// memory.
pub open spec fn brute_fits(png: PngImage, strategy: FilterStrategy) -> bool {
    strategy matches FilterStrategy::Brute { num_lines, level } ==> level <= 12 && forall|i: int|
        0 <= i < png.ihdr.spec_layout().len() ==> raw_bound((#[trigger] png.ihdr.spec_layout()[i].1 + 1) * num_lines)
            <= usize::MAX
}

/// Whether the worst-case compressed size of `m` bytes fits in memory.
fn raw_bound_fits(m: u64) -> (r: bool)
    ensures
        r == (raw_bound(m as int) <= usize::MAX),
{
    let blocks: u64 = if m == 0 {
        1
    } else {
        m / 5000 + if m % 5000 == 0 {
            0
        } else {
            1
        }
    };
    assert(m > 0 ==> blocks == (m + 4999) / 5000) by (nonlinear_arith)
        requires
            m > 0 ==> blocks == m / 5000 + (if m % 5000 == 0 { 0int } else { 1int }),
    ;
    match (5 * blocks).checked_add(m) {
        Some(b) => b as u128 <= usize::MAX as u128,
        None => false,
    }
}

/// Whether the brute force filter can run on the image with these settings:
/// a level libdeflate knows, and a worst-case compressed size of as many
/// bytes as `num_lines` lines (filter bytes included) hold that fits in
/// memory for every line.
pub fn brute_can_run(png: &PngImage, num_lines: usize, level: u8) -> (r: bool)
    requires
        png.ihdr.spec_valid(),
    ensures
        r == brute_fits(*png, FilterStrategy::Brute { num_lines, level }),
{
    if level > 12 {
        return false;
    }
    let layout = png.ihdr.line_layout();
    let ghost spec = png.ihdr.spec_layout();
    let mut k: usize = 0;
    while k < layout.len()
        invariant
            k <= layout@.len(),
            layout@.len() == spec.len(),
            spec == png.ihdr.spec_layout(),
            forall|j: int| 0 <= j < layout@.len() ==> (#[trigger] layout@[j]).1 == spec[j].1,
            forall|j: int| 0 <= j < k ==> raw_bound((#[trigger] spec[j].1 + 1) * num_lines) <= usize::MAX,
        decreases layout@.len() - k,
    {
        let len = layout[k].1;
        assert((len as int + 1) * (num_lines as int) <= 0x1_0000_0000_0000_0000 * 0xFFFF_FFFF_FFFF_FFFF) by (nonlinear_arith)
            requires
                len <= 0xFFFF_FFFF_FFFF_FFFF,
                num_lines <= 0xFFFF_FFFF_FFFF_FFFF,
        ;
        let m: u128 = (len as u128 + 1) * (num_lines as u128);
        if m > usize::MAX as u128 {
            return false;
        }
        if !raw_bound_fits(m as u64) {
            return false;
        }
        k += 1;
    }
    true
}

/// What the trial compressor makes of a filtered stream: miniz_oxide at
/// level `zc`, or Zopfli with the options' iteration count (nothing when that
/// is zero).
pub open spec fn trial_compressed(opts: Options, zc: u8, t: Seq<u8>) -> Option<Seq<u8>> {
    match opts.deflater {
        Deflaters::Zlib => Some(spec_miniz_zlib(zc, t)),
        Deflaters::Zopfli => if opts.zopfli_iterations >= 1 {
            Some(spec_zopfli_zlib(opts.zopfli_iterations, u64::MAX, 15, t))
        } else {
            None
        },
    }
}

/// One trial: the image filtered with the filter numbered `f` (with the
/// options' brute force settings and alpha optimisation), then compressed as
/// `trial_compressed` says (miniz_oxide at level `zc`, or Zopfli); `None`
/// for a filter number that names no filter. Without alpha optimisation the
/// filtered stream unfilters to the image data.
pub fn try_combination(png: &PngImage, f: u8, zc: u8, opts: &Options) -> (r: Option<PngResult<Vec<u8>>>)
    requires
        png.wf(),
        spec_filter_strategy(f, opts.brute_lines, opts.brute_level) matches Some(s) ==> brute_fits(*png, s),
    ensures
        spec_filter_strategy(f, opts.brute_lines, opts.brute_level) is None <==> r is None,
        spec_filter_strategy(f, opts.brute_lines, opts.brute_level) matches Some(s) ==> {
            &&& r matches Some(res)
            &&& res is Ok <==> trial_compressed(*opts, zc, trial_stream(*png, s, opts.optimize_alpha)) is Some
            &&& res matches Ok(v) ==> Some(v@) == trial_compressed(*opts, zc, trial_stream(*png, s, opts.optimize_alpha))
                && spec_zlib_inflate(v@) == Some(trial_stream(*png, s, opts.optimize_alpha))
            &&& !opts.optimize_alpha && every_line_won(
                s,
                png.ihdr.spec_layout(),
                png.data@,
                png.ihdr.spec_bytes_pp(),
                0,
            ) ==> spec_unfilter_image(png.ihdr.spec_layout(), trial_stream(*png, s, false), png.ihdr.spec_bytes_pp())
                == Some(png.data@)
        },
{
    let strategy = match filter_strategy(f, opts.brute_lines, opts.brute_level) {
        Some(s) => s,
        None => return None,
    };
    let (filtered, _used) = png.filter_image(strategy, opts.optimize_alpha);
    proof {
        assert(png.spec_alpha_bytes(false) == 0);
        assert(filtered@ == trial_stream(*png, strategy, opts.optimize_alpha));
    }
    match opts.deflater {
        Deflaters::Zlib => Some(deflate(&filtered, zc)),
        Deflaters::Zopfli => Some(
            crate::deflate::zopfli_oxipng::deflate(
                &filtered,
                ZopfliOptions {
                    iteration_count: opts.zopfli_iterations,
                    iterations_without_improvement: u64::MAX,
                    maximum_block_splits: 15,
                },
            ),
        ),
    }
}


/// Whether the palette of an image can be sorted: the image is small enough
/// for 32-bit counts of its pixels, and a palette holds at most 256 colors.
pub open spec fn sortable(p: PngImage) -> bool {
    &&& 4 * p.data@.len() <= u32::MAX
    &&& p.ihdr.color_type matches ColorType::Indexed { palette } ==> palette@.len() <= 256
}

/// Whether the interlacing of an image can be changed to `interlace`: the new
/// data, filter bytes included, fits in memory, and so does a byte per pixel
/// below 8 bits per pixel.
pub open spec fn interlace_fits(p: PngImage, interlace: bool) -> bool {
    &&& layout_size(layout_for(p.ihdr.width as int, p.ihdr.height as int, p.ihdr.spec_bpp(), interlace), 1)
        <= usize::MAX
    &&& p.ihdr.spec_bpp() < 8 ==> p.ihdr.width * p.ihdr.height <= usize::MAX
}

/// The interlacing that the options ask of an image, when it differs from
/// the image's own: 1 asks for Adam7, any other value for none.
pub open spec fn wanted_interlace(opts: Options, p: PngImage) -> Option<bool> {
    match opts.interlace {
        Some(i) => if (i == 1) != p.ihdr.interlaced {
            Some(i == 1)
        } else {
            None
        },
        None => None,
    }
}

/// The image after an optional step.
pub open spec fn after_step(p: PngImage, step: Option<PngImage>) -> PngImage {
    match step {
        Some(x) => x,
        None => p,
    }
}

/// The palette steps of the optimisation: with palette reduction on, the
/// palette is reduced (`a`), then sorted by luma (`b`) where it can be.
pub open spec fn palette_steps(png: PngImage, opts: Options, a: Option<PngImage>, b: Option<PngImage>) -> bool {
    if opts.palette_reduction {
        &&& reduced_outcome(png, opts.optimize_alpha, a)
        &&& if sortable(after_step(png, a)) {
            sorted_outcome(after_step(png, a), b)
        } else {
            b is None
        }
    } else {
        a is None && b is None
    }
}

/// Prepare an image for compression, in the order the optimisation takes:
/// reduce the palette, sort it, then change the interlacing as the options
/// ask. The result is the new image and whether any step changed it; it is
/// an error when the image is too large to change its interlacing.
pub fn prepare_image(png: PngImage, opts: &Options) -> (r: PngResult<(PngImage, bool)>)
    requires
        png.wf(),
    ensures
        exists|a: Option<PngImage>, b: Option<PngImage>|
            {
                &&& palette_steps(png, *opts, a, b)
                &&& #[trigger] after_step(after_step(png, a), b).wf()
                &&& match wanted_interlace(*opts, after_step(after_step(png, a), b)) {
                    None => r matches Ok((img, changed)) && img == after_step(after_step(png, a), b) && changed == (a
                        is Some || b is Some),
                    Some(i) => if interlace_fits(after_step(after_step(png, a), b), i) {
                        r matches Ok((img, changed)) && changed && interlace_outcome(
                            after_step(after_step(png, a), b),
                            i,
                            Some(img),
                        )
                    } else {
                        r is Err
                    },
                }
            },
{
    let ghost p0 = png;
    let mut cur = png;
    let mut changed = false;
    let ghost mut ga: Option<PngImage> = None;
    let ghost mut gb: Option<PngImage> = None;
    if opts.palette_reduction {
        let ra = reduced_palette(&cur, opts.optimize_alpha);
        proof {
            ga = ra;
            lemma_palette_steps_wf(p0, opts.optimize_alpha, ra, None);
        }
        if let Some(x) = ra {
            cur = x;
            changed = true;
        }
        assert(cur == after_step(p0, ga));
        if is_sortable(&cur) {
            let rb = sorted_palette(&cur);
            proof {
                gb = rb;
                lemma_palette_steps_wf(cur, false, None, rb);
            }
            if let Some(x) = rb {
                cur = x;
                changed = true;
            }
        }
    }
    assert(palette_steps(p0, *opts, ga, gb));
    assert(cur == after_step(after_step(p0, ga), gb));
    assert(changed == (ga is Some || gb is Some));
    let ghost p2 = cur;
    match opts.interlace {
        Some(i) => {
            let want = i == 1;
            if want != cur.ihdr.interlaced {
                if !interlace_fits_exec(&cur, want) {
                    return Err(PngError::new("The image is too large to change its interlacing"));
                }
                let rc = changed_interlacing(&cur, want);
                match rc {
                    Some(x) => {
                        cur = x;
                        changed = true;
                    },
                    None => {},
                }
                assert(interlace_outcome(p2, want, Some(cur)));
            }
        },
        None => {},
    }
    Ok((cur, changed))
}

/// Whether the palette of an image can be sorted.
fn is_sortable(p: &PngImage) -> (r: bool)
    ensures
        r == sortable(*p),
{
    let small = p.data.len() <= 0x3fff_ffff;
    match &p.ihdr.color_type {
        ColorType::Indexed { palette } => small && palette.len() <= 256,
        _ => small,
    }
}

/// Whether the interlacing of an image can be changed to `interlace`.
fn interlace_fits_exec(p: &PngImage, interlace: bool) -> (r: bool)
    requires
        p.wf(),
    ensures
        r == interlace_fits(*p, interlace),
{
    let target = IhdrData {
        width: p.ihdr.width,
        height: p.ihdr.height,
        color_type: p.ihdr.color_type.duplicate(),
        bit_depth: p.ihdr.bit_depth,
        interlaced: interlace,
    };
    assert(target.spec_bpp() == p.ihdr.spec_bpp());
    let fits = target.checked_raw_data_size().is_some();
    assert((p.ihdr.width as u128) * (p.ihdr.height as u128) <= 0xffff_ffff_ffff_ffff_ffff_ffff_ffff_ffff) by (nonlinear_arith);
    let pixels_fit = p.ihdr.bpp() >= 8 || (p.ihdr.width as u128) * (p.ihdr.height as u128) <= usize::MAX as u128;
    fits && pixels_fit
}


/// The trials for the given filters and compression levels: every filter
/// with every level, filter by filter.
pub open spec fn trial_pairs(filters: Seq<u8>, levels: Seq<u8>) -> Seq<(u8, u8)>
    decreases filters.len(),
{
    if filters.len() == 0 {
        Seq::empty()
    } else {
        trial_pairs(filters.drop_last(), levels) + levels.map_values(|z: u8| (filters.last(), z))
    }
}

/// The trials to run: none when the image data is neither to be recoded nor
/// changed, else every filter with every compression level.
pub fn plan_trials(filters: &Vec<u8>, levels: &Vec<u8>, recode: bool) -> (r: Vec<(u8, u8)>)
    ensures
        r@ == (if recode {
            trial_pairs(filters@, levels@)
        } else {
            Seq::empty()
        }),
{
    let mut out: Vec<(u8, u8)> = Vec::new();
    if !recode {
        return out;
    }
    let mut i: usize = 0;
    while i < filters.len()
        invariant
            i <= filters@.len(),
            out@ == trial_pairs(filters@.take(i as int), levels@),
        decreases filters@.len() - i,
    {
        let ghost before = out@;
        let mut j: usize = 0;
        while j < levels.len()
            invariant
                i < filters@.len(),
                j <= levels@.len(),
                out@ == before + levels@.take(j as int).map_values(|z: u8| (filters@[i as int], z)),
            decreases levels@.len() - j,
        {
            out.push((filters[i], levels[j]));
            j += 1;
            assert(levels@.take(j as int).map_values(|z: u8| (filters@[i as int], z)) =~= levels@.take(j - 1).map_values(
                |z: u8| (filters@[i as int], z),
            ).push((filters@[i as int], levels@[j - 1])));
        }
        assert(levels@.take(levels@.len() as int) =~= levels@);
        assert(filters@.take(i + 1).drop_last() =~= filters@.take(i as int));
        i += 1;
    }
    assert(filters@.take(filters@.len() as int) =~= filters@);
    out
}

/// The image data with its compressed data replaced by `best`, if any.
pub open spec fn with_idat(png: PngData, best: Option<Vec<u8>>) -> PngData {
    match best {
        Some(v) => PngData { idat_data: v, ..png },
        None => png,
    }
}

/// Whether every chunk of the image fits the 32-bit lengths of the format.
fn is_writable(png: &PngData) -> (r: bool)
    ensures
        r == png.spec_writable(),
{
    if png.idat_data.len() > 0xffff_ffff {
        return false;
    }
    let mut i: usize = 0;
    while i < png.aux_chunks.len()
        invariant
            i <= png.aux_chunks@.len(),
            forall|k: int| 0 <= k < i ==> (#[trigger] png.aux_chunks@[k]).data@.len() <= u32::MAX,
        decreases png.aux_chunks@.len() - i,
    {
        if png.aux_chunks[i].data.len() > 0xffff_ffff {
            return false;
        }
        i += 1;
    }
    let mut j: usize = 0;
    while j < png.frames.len()
        invariant
            j <= png.frames@.len(),
            forall|k: int| 0 <= k < j ==> (#[trigger] png.frames@[k]).data@.len() + 4 <= u32::MAX,
        decreases png.frames@.len() - j,
    {
        if png.frames[j].data.len() > 0xffff_fffb {
            return false;
        }
        j += 1;
    }
    let palette_ok = match &png.raw.ihdr.color_type {
        ColorType::Indexed { palette } => palette.len() <= 0x5555_5555,
        _ => true,
    };
    let counts_ok = png.aux_chunks.len() as u128 + 2 * png.frames.len() as u128 + 1 <= 0xffff_ffff;
    palette_ok && counts_ok
}

/// Finish the optimisation: put the chosen compressed data, if any, in place
/// and write the stream. The result is the stream, or nothing when it is not
/// worth writing: it is no smaller than the original file, and neither
/// forced nor asked to change the interlacing. It is an error when a chunk
/// does not fit the format.
pub fn finish_png(png: PngData, best: Option<Vec<u8>>, original_size: usize, opts: &Options) -> (r: PngResult<
    Option<Vec<u8>>,
>)
    ensures
        r is Err <==> !with_idat(png, best).spec_writable(),
        r matches Ok(out) ==> {
            &&& out is None <==> (original_size <= with_idat(png, best).spec_output().len() && !opts.force
                && opts.interlace is None)
            &&& out matches Some(v) ==> v@ == with_idat(png, best).spec_output()
            &&& out matches Some(v) ==> v@.len() < original_size || opts.force || opts.interlace is Some
        },
{
    let mut png = png;
    match best {
        Some(v) => {
            png.idat_data = v;
        },
        None => {},
    }
    if !is_writable(&png) {
        return Err(PngError::new("The optimized image is too large to write"));
    }
    let out = png.output();
    if already_optimized(original_size, out.len(), opts.force, opts.interlace) {
        Ok(None)
    } else {
        Ok(Some(out))
    }
}

} // verus!
