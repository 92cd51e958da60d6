use oxipng::colors::{BitDepth, ColorType};
use oxipng::headers::IhdrData;
use oxipng::interlace::changed_interlacing;
use oxipng::png::PngImage;

fn image(width: u32, height: u32, color_type: ColorType, bit_depth: BitDepth, data: Vec<u8>) -> PngImage {
    PngImage {
        ihdr: IhdrData { width, height, color_type, bit_depth, interlaced: false },
        data,
    }
}

#[test]
fn adam7_order_of_a_small_gray_image() {
    let data: Vec<u8> = (0..25).collect();
    let png = image(5, 5, ColorType::Grayscale { transparent_shade: None }, BitDepth::Eight, data.clone());
    let interlaced = changed_interlacing(&png, true).expect("interlaced");
    assert!(interlaced.ihdr.interlaced);
    assert_eq!(
        interlaced.data,
        vec![0, 4, 20, 24, 2, 22, 10, 12, 14, 1, 3, 11, 13, 21, 23, 5, 6, 7, 8, 9, 15, 16, 17, 18, 19]
    );
    let back = changed_interlacing(&interlaced, false).expect("deinterlaced");
    assert!(!back.ihdr.interlaced);
    assert_eq!(back.data, data);
}

#[test]
fn unchanged_interlacing_is_none() {
    let png = image(2, 2, ColorType::Grayscale { transparent_shade: None }, BitDepth::Eight, vec![1, 2, 3, 4]);
    assert!(changed_interlacing(&png, false).is_none());
    assert!(png.change_interlacing(false).is_none());
}

#[test]
fn interlacing_round_trips_wide_pixels() {
    let width = 11;
    let height = 9;
    let data: Vec<u8> = (0..(width * height * 6)).map(|i| (i * 7 % 251) as u8).collect();
    let png = image(width, height, ColorType::RGB { transparent_color: None }, BitDepth::Sixteen, data.clone());
    let interlaced = png.change_interlacing(true).expect("interlaced");
    assert_eq!(interlaced.data.len(), data.len());
    assert_ne!(interlaced.data, data);
    // The first pixel stays first: it opens the first pass.
    assert_eq!(&interlaced.data[0..6], &data[0..6]);
    let back = interlaced.change_interlacing(false).expect("deinterlaced");
    assert_eq!(back.data, data);
}

#[test]
fn single_pixel_image_interlaces_to_itself() {
    let png = image(1, 1, ColorType::RGBA, BitDepth::Eight, vec![1, 2, 3, 4]);
    let interlaced = changed_interlacing(&png, true).expect("interlaced");
    assert_eq!(interlaced.data, vec![1, 2, 3, 4]);
}

#[test]
fn one_bit_image_interlaces_by_samples() {
    let data = vec![80, 248, 80, 248, 80];
    let png = image(5, 5, ColorType::Grayscale { transparent_shade: None }, BitDepth::One, data.clone());
    let interlaced = changed_interlacing(&png, true).expect("interlaced");
    assert_eq!(interlaced.ihdr.bit_depth, BitDepth::One);
    assert_eq!(interlaced.data, vec![0, 0, 0, 0, 0, 0, 192, 192, 192, 248, 248]);
    let back = changed_interlacing(&interlaced, false).expect("deinterlaced");
    assert_eq!(back.data, data);
}

#[test]
fn two_bit_indexed_image_interlaces_by_samples() {
    let palette = vec![
        oxipng::colors::Rgba8 { r: 0, g: 0, b: 0, a: 255 },
        oxipng::colors::Rgba8 { r: 1, g: 1, b: 1, a: 255 },
        oxipng::colors::Rgba8 { r: 2, g: 2, b: 2, a: 255 },
        oxipng::colors::Rgba8 { r: 3, g: 3, b: 3, a: 255 },
    ];
    let data = vec![24, 176];
    let png = image(3, 2, ColorType::Indexed { palette }, BitDepth::Two, data.clone());
    let interlaced = png.change_interlacing(true).expect("interlaced");
    assert_eq!(interlaced.data, vec![0, 128, 64, 176]);
    let back = interlaced.change_interlacing(false).expect("deinterlaced");
    assert_eq!(back.data, data);
}

#[test]
fn four_bit_image_interlaces_by_samples() {
    let data = vec![24, 246, 208, 75, 41, 0, 126, 92, 48];
    let png = image(5, 3, ColorType::Grayscale { transparent_shade: None }, BitDepth::Four, data.clone());
    let interlaced = changed_interlacing(&png, true).expect("interlaced");
    assert_eq!(interlaced.data, vec![16, 208, 240, 117, 48, 134, 236, 75, 41, 0]);
    let back = changed_interlacing(&interlaced, false).expect("deinterlaced");
    assert_eq!(back.data, data);
}

#[test]
fn padding_bits_are_cleared_by_interlacing() {
    // The low three bits of each line are padding; here they are set.
    let data = vec![87, 255, 87, 255, 87];
    let png = image(5, 5, ColorType::Grayscale { transparent_shade: None }, BitDepth::One, data);
    let interlaced = changed_interlacing(&png, true).expect("interlaced");
    let back = changed_interlacing(&interlaced, false).expect("deinterlaced");
    assert_eq!(back.data, vec![80, 248, 80, 248, 80]);
}
