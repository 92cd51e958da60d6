use oxipng::colors::{BitDepth, ColorType};
use oxipng::filters::{paeth_predictor, FilterStrategy, RowFilter};
use oxipng::headers::IhdrData;
use oxipng::png::PngImage;

const ROW: [u8; 4] = [10, 20, 30, 40];
const PREV: [u8; 4] = [5, 5, 5, 5];

fn filtered(filter: RowFilter, bpp: usize, row: &[u8], prev: &[u8]) -> Vec<u8> {
    let mut data = row.to_vec();
    let mut buf = Vec::new();
    filter.filter_line(bpp, &mut data, prev, &mut buf, 0);
    assert_eq!(data, row);
    buf
}

#[test]
fn filter_line_known_values() {
    assert_eq!(filtered(RowFilter::NoFilter, 1, &ROW, &PREV), vec![0, 10, 20, 30, 40]);
    assert_eq!(filtered(RowFilter::Sub, 1, &ROW, &PREV), vec![1, 10, 10, 10, 10]);
    assert_eq!(filtered(RowFilter::Up, 1, &ROW, &PREV), vec![2, 5, 15, 25, 35]);
    assert_eq!(filtered(RowFilter::Average, 1, &ROW, &PREV), vec![3, 8, 13, 18, 23]);
    assert_eq!(filtered(RowFilter::Paeth, 1, &ROW, &PREV), vec![4, 5, 10, 10, 10]);
}

#[test]
fn filter_line_replaces_the_buffer() {
    let mut data = vec![1, 2];
    let mut buf = vec![9];
    RowFilter::Sub.filter_line(1, &mut data, &[0, 0], &mut buf, 0);
    assert_eq!(buf, vec![1, 1, 1]);
}

#[test]
fn unfilter_undoes_filter() {
    let rows: [&[u8]; 3] = [&[10, 20, 30, 40, 250, 3], &[255, 0, 128, 7, 7, 7], &[0, 0, 0, 0, 0, 1]];
    let prevs: [&[u8]; 3] = [&[5, 5, 5, 5, 5, 5], &[1, 2, 3, 4, 5, 6], &[200, 100, 0, 255, 1, 2]];
    for row in rows {
        for prev in prevs {
            for bpp in [1usize, 2, 3] {
                for filter in RowFilter::all() {
                    let f = filtered(filter, bpp, row, prev);
                    assert_eq!(f[0], filter.code());
                    let mut out = Vec::new();
                    filter.unfilter_line(bpp, &f[1..], prev, &mut out);
                    assert_eq!(out, row);
                }
            }
        }
    }
}

#[test]
fn paeth_predictor_picks_nearest() {
    assert_eq!(paeth_predictor(10, 20, 15), 15);
    assert_eq!(paeth_predictor(0, 5, 0), 5);
    assert_eq!(paeth_predictor(10, 5, 5), 10);
    assert_eq!(paeth_predictor(3, 3, 3), 3);
    assert_eq!(paeth_predictor(100, 50, 200), 50);
}

#[test]
fn row_filter_codes_and_names() {
    for (i, f) in RowFilter::all().iter().enumerate() {
        assert_eq!(f.code() as usize, i);
        assert_eq!(RowFilter::try_from(i as u8), Ok(*f));
    }
    assert_eq!(RowFilter::try_from(5), Err(()));
    assert_eq!(RowFilter::NoFilter.name(), "None");
    assert_eq!(RowFilter::Paeth.name(), "Paeth");
    assert_eq!(FilterStrategy::MinSum.name(), "MinSum");
    assert_eq!(FilterStrategy::up().name(), "Up");
    assert_eq!(FilterStrategy::Brute { num_lines: 4, level: 3 }.name(), "Brute");
}

#[test]
fn optimize_alpha_only_touches_transparent_pixels() {
    // Two RGBA pixels: the first fully transparent, the second opaque.
    let mut data = vec![9, 8, 7, 0, 1, 2, 3, 255];
    let prev = vec![0u8; 8];
    RowFilter::NoFilter.optimize_alpha(4, &mut data, &prev, 3);
    assert_eq!(&data[3..8], &[0, 1, 2, 3, 255]);
    let mut data = vec![9, 8, 7, 0, 1, 2, 3, 255];
    RowFilter::Up.optimize_alpha(4, &mut data, &[4, 5, 6, 0, 0, 0, 0, 0], 3);
    assert_eq!(data, vec![4, 5, 6, 0, 1, 2, 3, 255]);
}

#[test]
fn brute_picks_the_first_filter_with_the_shortest_stream() {
    let row: Vec<u8> = (0..64).map(|x: u8| x.wrapping_mul(7) % 50).collect();
    let png = PngImage {
        ihdr: IhdrData {
            width: 64,
            height: 1,
            color_type: ColorType::Grayscale { transparent_shade: None },
            bit_depth: BitDepth::Eight,
            interlaced: false,
        },
        data: row.clone(),
    };
    let (_, used) = png.filter_image(FilterStrategy::Brute { num_lines: 4, level: 12 }, false);
    let prev = vec![0u8; 64];
    let all = [RowFilter::NoFilter, RowFilter::Sub, RowFilter::Up, RowFilter::Average, RowFilter::Paeth];
    let mut compressor = libdeflater::Compressor::new(libdeflater::CompressionLvl::new(12).unwrap());
    let sizes: Vec<usize> = all
        .iter()
        .map(|&f| {
            let bytes = filtered(f, 1, &row, &prev);
            let mut out = vec![0; compressor.deflate_compress_bound(bytes.len())];
            compressor.deflate_compress(&bytes, &mut out).unwrap()
        })
        .collect();
    let smallest = *sizes.iter().min().unwrap();
    let best = (0..5).find(|&i| sizes[i] == smallest).unwrap();
    match used {
        FilterStrategy::Predefined(fs) => assert_eq!(fs, vec![all[best]]),
        _ => panic!("brute force reports the filters it chose"),
    }
}

#[test]
fn alpha_optimisation_changes_only_transparent_colours() {
    // Gray + alpha, 8 bits: pixels alternate between opaque and fully transparent.
    let mut data = Vec::new();
    for y in 0..4u8 {
        for x in 0..6u8 {
            let transparent = (x + y) % 2 == 1;
            data.push(x.wrapping_mul(37).wrapping_add(y * 11));
            data.push(if transparent { 0 } else { 255 });
        }
    }
    let ihdr = IhdrData {
        width: 6,
        height: 4,
        color_type: ColorType::GrayscaleAlpha,
        bit_depth: BitDepth::Eight,
        interlaced: false,
    };
    let png = PngImage { ihdr: ihdr.clone(), data: data.clone() };
    for strategy in [FilterStrategy::MinSum, FilterStrategy::Basic(RowFilter::Sub), FilterStrategy::Basic(RowFilter::Paeth)] {
        let (filtered, _) = png.filter_image(strategy, true);
        let back = PngImage::from_filtered(ihdr.clone(), filtered).expect("unfilters");
        assert_eq!(back.data.len(), data.len());
        for p in 0..data.len() / 2 {
            assert_eq!(back.data[2 * p + 1], data[2 * p + 1]);
            if data[2 * p + 1] != 0 {
                assert_eq!(back.data[2 * p], data[2 * p]);
            }
        }
    }
}
