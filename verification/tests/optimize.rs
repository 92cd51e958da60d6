use oxipng::colors::{BitDepth, ColorType, Rgba8};
use oxipng::deflate::inflate;
use oxipng::headers::IhdrData;
use oxipng::optimize::{
    already_optimized, filter_strategy, finish_png, heuristic_choices, pick_best, plan_trials, prepare_image, try_combination,
};
use oxipng::png_data::PngData;
use oxipng::options::StripChunks;
use oxipng::png::PngImage;
use oxipng::filters::FilterStrategy;
use oxipng::Options;
use oxipng::deflate::Deflaters;

fn options(filter: Vec<u8>, strategies: Vec<u8>, use_heuristics: bool) -> Options {
    Options {
        backup: false,
        out_file: String::new(),
        out_dir: None,
        stdout: false,
        fix_errors: false,
        pretend: false,
        recursive: false,
        clobber: true,
        create: true,
        force: false,
        preserve_attrs: false,
        verbosity: None,
        filter,
        interlace: None,
        compression: vec![9],
        memory: vec![9],
        strategies,
        window: 15,
        bit_depth_reduction: false,
        color_type_reduction: false,
        palette_reduction: false,
        idat_recoding: false,
        strip: StripChunks::KeepAll,
        use_heuristics,
        max_decompressed_size: None,
        optimize_alpha: false,
        brute_lines: 3,
        brute_level: 1,
        deflater: Deflaters::Zlib,
        zopfli_iterations: 15,
    }
}

fn header(color_type: ColorType, bit_depth: BitDepth) -> IhdrData {
    IhdrData { width: 3, height: 2, color_type, bit_depth, interlaced: false }
}

#[test]
fn heuristics_fill_empty_choices() {
    let rgb = header(ColorType::RGB { transparent_color: None }, BitDepth::Eight);
    let indexed = header(ColorType::Indexed { palette: vec![Rgba8::new(0, 0, 0, 255)] }, BitDepth::Eight);
    let gray2 = header(ColorType::Grayscale { transparent_shade: None }, BitDepth::Two);
    assert_eq!(heuristic_choices(&options(vec![], vec![], true), &rgb), (vec![5], vec![1]));
    assert_eq!(heuristic_choices(&options(vec![], vec![], true), &indexed), (vec![0], vec![0]));
    assert_eq!(heuristic_choices(&options(vec![], vec![], true), &gray2), (vec![0], vec![0]));
    assert_eq!(heuristic_choices(&options(vec![2, 3], vec![], true), &rgb), (vec![2, 3], vec![1]));
    assert_eq!(heuristic_choices(&options(vec![], vec![], false), &rgb), (vec![], vec![]));
}

#[test]
fn pick_best_rules() {
    // The first trial must beat the original data.
    assert_eq!(pick_best(&vec![120, 90, 95, 80], 100, false, false), Some(3));
    assert_eq!(pick_best(&vec![120, 130], 100, false, false), None);
    // Forced output or a change of interlacing accept the first trial.
    assert_eq!(pick_best(&vec![120, 130], 100, false, true), Some(0));
    assert_eq!(pick_best(&vec![130, 120], 100, true, false), Some(1));
    // Ties keep the earlier trial.
    assert_eq!(pick_best(&vec![50, 50], 100, false, false), Some(0));
    assert_eq!(pick_best(&vec![], 100, false, true), None);
}

#[test]
fn already_optimized_rules() {
    assert!(already_optimized(100, 100, false, None));
    assert!(!already_optimized(100, 99, false, None));
    assert!(!already_optimized(100, 120, true, None));
    assert!(!already_optimized(100, 120, false, Some(1)));
}

#[test]
fn filter_numbers() {
    assert_eq!(filter_strategy(0, 3, 1), Some(FilterStrategy::none()));
    assert_eq!(filter_strategy(4, 3, 1), Some(FilterStrategy::paeth()));
    assert_eq!(filter_strategy(5, 3, 1), Some(FilterStrategy::MinSum));
    assert_eq!(filter_strategy(6, 3, 1), Some(FilterStrategy::Entropy));
    assert_eq!(filter_strategy(7, 3, 1), Some(FilterStrategy::Bigrams));
    assert_eq!(filter_strategy(8, 3, 1), Some(FilterStrategy::BigEnt));
    assert_eq!(filter_strategy(9, 3, 1), Some(FilterStrategy::Brute { num_lines: 3, level: 1 }));
    assert_eq!(filter_strategy(10, 3, 1), None);
}

#[test]
fn trial_decompresses_to_the_filtered_image() {
    let png = PngImage {
        ihdr: header(ColorType::Grayscale { transparent_shade: None }, BitDepth::Eight),
        data: vec![1, 2, 3, 4, 5, 6],
    };
    let opts = options(vec![], vec![], false);
    let out = try_combination(&png, 1, 9, &opts).expect("filter").expect("deflate");
    let raw = inflate(&out, 100).expect("inflate");
    assert_eq!(raw, vec![1, 1, 1, 1, 1, 4, 1, 1]);
    assert!(try_combination(&png, 10, 9, &opts).is_none());
    for f in 6..=9 {
        let trial = try_combination(&png, f, 6, &opts).expect("filter").expect("deflate");
        let raw = inflate(&trial, 100).expect("inflate");
        let back = PngImage::from_filtered(png.ihdr.clone(), raw).expect("unfilter");
        assert_eq!(back.data, png.data);
    }
    let minsum = try_combination(&png, 5, 6, &opts).expect("filter").expect("deflate");
    let raw = inflate(&minsum, 100).expect("inflate");
    assert_eq!(raw.len(), 8);
    let back = PngImage::from_filtered(png.ihdr.clone(), raw).expect("unfilter");
    assert_eq!(back.data, png.data);
}

#[test]
fn trials_are_every_filter_with_every_level() {
    assert_eq!(plan_trials(&vec![0, 5], &vec![6, 9], true), vec![(0, 6), (0, 9), (5, 6), (5, 9)]);
    assert_eq!(plan_trials(&vec![0, 5], &vec![6, 9], false), vec![]);
}

fn gray_png() -> PngImage {
    PngImage {
        ihdr: header(ColorType::Grayscale { transparent_shade: None }, BitDepth::Eight),
        data: vec![1, 2, 3, 4, 5, 6],
    }
}

#[test]
fn preparing_changes_only_what_is_asked() {
    let opts = options(vec![], vec![], false);
    let (same, changed) = prepare_image(gray_png(), &opts).expect("prepared");
    assert!(!changed);
    assert_eq!(same.data, gray_png().data);
    let mut interlacing = options(vec![], vec![], false);
    interlacing.interlace = Some(1);
    let (img, changed) = prepare_image(gray_png(), &interlacing).expect("prepared");
    assert!(changed);
    assert!(img.ihdr.interlaced);
    assert_eq!(img.data, vec![1, 3, 2, 4, 5, 6]);
}

#[test]
fn preparing_reduces_and_sorts_the_palette() {
    let palette = vec![Rgba8::new(200, 200, 200, 255), Rgba8::new(0, 0, 0, 255), Rgba8::new(9, 9, 9, 255)];
    let png = PngImage {
        ihdr: header(ColorType::Indexed { palette: palette.clone() }, BitDepth::Eight),
        data: vec![0, 1, 0, 1, 0, 1],
    };
    let mut opts = options(vec![], vec![], false);
    opts.palette_reduction = true;
    let (img, changed) = prepare_image(png.clone(), &opts).expect("prepared");
    assert!(changed);
    let new_palette = match &img.ihdr.color_type {
        ColorType::Indexed { palette } => palette.clone(),
        _ => panic!("not indexed"),
    };
    assert_eq!(new_palette.len(), 2);
    for k in 0..png.data.len() {
        assert_eq!(new_palette[img.data[k] as usize], palette[png.data[k] as usize]);
    }
}

#[test]
fn finishing_writes_only_smaller_output() {
    let png = gray_png();
    let (filtered, _) = png.filter_image(FilterStrategy::none(), false);
    let idat = oxipng::deflate::deflate(&filtered, 9).expect("deflate");
    let data = PngData { raw: png.clone(), idat_data: idat.clone(), aux_chunks: vec![], frames: vec![] };
    let out = finish_png(data.clone(), None, 10_000, &options(vec![], vec![], false)).expect("writable");
    let out = out.expect("smaller");
    assert!(out.len() < 10_000);
    assert_eq!(out, data.output());
    assert!(finish_png(data.clone(), None, 10, &options(vec![], vec![], false)).expect("writable").is_none());
    let mut forced = options(vec![], vec![], false);
    forced.force = true;
    assert!(finish_png(data, Some(idat), 10, &forced).expect("writable").is_some());
}

#[test]
fn presets_choose_filters_levels_and_brute_settings() {
    let default = Options::default();
    assert_eq!(default.filter, vec![0, 1, 6, 7]);
    assert_eq!(default.compression, vec![11]);
    assert!(default.use_heuristics && default.idat_recoding && default.palette_reduction);
    assert!(matches!(default.strip, StripChunks::KeepAll));
    let fast = Options::from_preset(0);
    assert!(fast.filter.is_empty());
    assert_eq!(fast.compression, vec![5]);
    let four = Options::from_preset(4);
    assert_eq!(four.filter, vec![0, 7, 8, 9]);
    assert_eq!((four.brute_lines, four.brute_level), (4, 1));
    let max = Options::max_compression();
    assert_eq!(max.filter, (0..10).collect::<Vec<u8>>());
    assert_eq!((max.brute_lines, max.brute_level), (8, 5));
    assert_eq!(Options::from_preset(9).filter, max.filter);
}

#[test]
fn brute_force_runs_on_images_that_fit() {
    let png = PngImage {
        ihdr: IhdrData {
            width: 3,
            height: 2,
            color_type: ColorType::Grayscale { transparent_shade: None },
            bit_depth: BitDepth::Eight,
            interlaced: false,
        },
        data: vec![1, 2, 3, 4, 5, 6],
    };
    assert!(oxipng::optimize::brute_can_run(&png, 3, 1));
    assert!(!oxipng::optimize::brute_can_run(&png, 3, 13));
    assert!(!oxipng::optimize::brute_can_run(&png, usize::MAX, 1));
}

#[test]
fn zopfli_trials_decompress_to_the_filtered_image() {
    let png = PngImage {
        ihdr: header(ColorType::Grayscale { transparent_shade: None }, BitDepth::Eight),
        data: vec![1, 2, 3, 4, 5, 6],
    };
    let mut opts = options(vec![], vec![], false);
    opts.deflater = Deflaters::Zopfli;
    opts.zopfli_iterations = 5;
    let out = try_combination(&png, 1, 9, &opts).expect("filter").expect("zopfli");
    assert_eq!(inflate(&out, 100).expect("inflate"), vec![1, 1, 1, 1, 1, 4, 1, 1]);
    opts.zopfli_iterations = 0;
    assert!(try_combination(&png, 1, 9, &opts).expect("filter").is_err());
}
