use oxipng::colors::{BitDepth, ColorType, Rgba8};
use oxipng::headers::IhdrData;
use oxipng::palette::{
    reduced_palette, sorted_palette, sorted_palette_battiato, sorted_palette_ezeng, sorted_palette_mzeng,
    CoOccurrenceMatrix,
};
use oxipng::png::PngImage;

fn indexed(width: u32, height: u32, palette: Vec<Rgba8>, data: Vec<u8>) -> PngImage {
    PngImage {
        ihdr: IhdrData {
            width,
            height,
            color_type: ColorType::Indexed { palette },
            bit_depth: BitDepth::Eight,
            interlaced: false,
        },
        data,
    }
}

fn palette_of(png: &PngImage) -> Vec<Rgba8> {
    match &png.ihdr.color_type {
        ColorType::Indexed { palette } => palette.clone(),
        _ => panic!("not indexed"),
    }
}

fn colors_of(png: &PngImage) -> Vec<Rgba8> {
    let palette = palette_of(png);
    png.data.iter().map(|&b| palette[b as usize]).collect()
}

fn c(r: u8, g: u8, b: u8, a: u8) -> Rgba8 {
    Rgba8::new(r, g, b, a)
}

#[test]
fn reduced_palette_drops_unused_and_duplicate_colors() {
    let palette = vec![c(1, 1, 1, 255), c(2, 2, 2, 255), c(1, 1, 1, 255), c(3, 3, 3, 255)];
    let png = indexed(3, 1, palette, vec![2, 3, 2]);
    let out = reduced_palette(&png, false).expect("reduced");
    assert_eq!(palette_of(&out), vec![c(1, 1, 1, 255), c(3, 3, 3, 255)]);
    assert_eq!(out.data, vec![0, 1, 0]);
    assert_eq!(colors_of(&out), colors_of(&png));
}

#[test]
fn reduced_palette_merges_transparent_with_alpha_optimisation() {
    let palette = vec![c(9, 9, 9, 0), c(5, 5, 5, 0), c(7, 7, 7, 255)];
    let png = indexed(3, 1, palette.clone(), vec![0, 1, 2]);
    let out = reduced_palette(&png, true).expect("reduced");
    assert_eq!(palette_of(&out), vec![c(0, 0, 0, 0), c(7, 7, 7, 255)]);
    assert_eq!(out.data, vec![0, 0, 1]);
    let kept = reduced_palette(&png, false);
    assert!(kept.is_none());
}

#[test]
fn reduced_palette_unchanged_image_is_none() {
    let png = indexed(2, 1, vec![c(1, 2, 3, 255), c(4, 5, 6, 255)], vec![0, 1]);
    assert!(reduced_palette(&png, false).is_none());
    let gray = PngImage {
        ihdr: IhdrData {
            width: 1,
            height: 1,
            color_type: ColorType::Grayscale { transparent_shade: None },
            bit_depth: BitDepth::Eight,
            interlaced: false,
        },
        data: vec![0],
    };
    assert!(reduced_palette(&gray, false).is_none());
}

#[test]
fn reduced_palette_fills_missing_entries_with_black() {
    let png = indexed(2, 1, vec![c(1, 2, 3, 255)], vec![0, 1]);
    let out = reduced_palette(&png, false).expect("reduced");
    assert_eq!(palette_of(&out), vec![c(1, 2, 3, 255), c(0, 0, 0, 255)]);
    assert_eq!(out.data, vec![0, 1]);
}

#[test]
fn sorted_palette_orders_by_alpha_then_luma() {
    let palette = vec![c(0, 0, 0, 255), c(255, 255, 255, 255), c(10, 10, 10, 0)];
    // 3x2 image: the edge pixels tie so no colour is put first.
    let png = indexed(3, 2, palette.clone(), vec![0, 1, 2, 2, 1, 0]);
    let out = sorted_palette(&png).expect("sorted");
    assert_eq!(palette_of(&out), vec![c(10, 10, 10, 0), c(255, 255, 255, 255), c(0, 0, 0, 255)]);
    assert_eq!(out.data, vec![2, 1, 0, 0, 1, 2]);
    assert_eq!(colors_of(&out), colors_of(&png));
}

#[test]
fn sorted_palette_already_sorted_is_none() {
    let palette = vec![c(255, 255, 255, 255), c(0, 0, 0, 255)];
    let png = indexed(2, 1, palette, vec![0, 1]);
    assert!(sorted_palette(&png).is_none());
}

fn stripes() -> PngImage {
    let palette = vec![c(200, 0, 0, 255), c(0, 200, 0, 255), c(0, 0, 200, 255), c(90, 90, 90, 255)];
    let mut data = Vec::new();
    for y in 0..6u8 {
        for x in 0..6u8 {
            data.push(if y < 3 { (x / 2) % 3 } else { 3 - (x % 2) * 2 });
        }
    }
    indexed(6, 6, palette, data)
}

#[test]
fn co_occurrence_matrix_of_stripes() {
    let png = stripes();
    assert!(CoOccurrenceMatrix::from(&png).is_some());
    let two = indexed(2, 1, vec![c(0, 0, 0, 255), c(1, 1, 1, 255)], vec![0, 1]);
    assert!(CoOccurrenceMatrix::from(&two).is_none());
}

#[test]
fn palette_sorts_keep_pixel_colors() {
    let png = stripes();
    let matrix = CoOccurrenceMatrix::from(&png).expect("matrix");
    for out in [
        sorted_palette_mzeng(&png, &matrix),
        sorted_palette_ezeng(&png, &matrix, 2),
        sorted_palette_battiato(&png, &matrix),
    ]
    .into_iter()
    .flatten()
    {
        assert_eq!(palette_of(&out).len(), 4);
        assert_eq!(colors_of(&out), colors_of(&png));
        let mut sorted = palette_of(&out);
        sorted.sort_by_key(|p| p.packed());
        let mut original = palette_of(&png);
        original.sort_by_key(|p| p.packed());
        assert_eq!(sorted, original);
    }
}
