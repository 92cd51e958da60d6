use oxipng::deflate::{deflate, inflate, zopfli_deflate};
use oxipng::error::PngError;

#[test]
fn deflate_then_inflate_round_trips() {
    let data: Vec<u8> = (0..1000u32).map(|i| (i % 17) as u8).collect();
    for level in [0u8, 1, 6, 9, 10] {
        let compressed = deflate(&data, level).expect("deflate");
        assert_eq!(inflate(&compressed, data.len()).expect("inflate"), data);
    }
    let zopfli = zopfli_deflate(&data).expect("zopfli");
    assert_eq!(inflate(&zopfli, data.len()).expect("inflate"), data);
}

#[test]
fn inflate_reports_its_failures() {
    let data = vec![7u8; 100];
    let compressed = deflate(&data, 6).expect("deflate");
    assert!(matches!(inflate(&compressed, 50), Err(PngError::InflatedDataTooLong(50))));
    assert!(matches!(inflate(&[1, 2, 3, 4], 50), Err(PngError::InvalidData)));
}

#[test]
fn libdeflate_round_trips() {
    let data: Vec<u8> = (0..500u32).map(|i| (i * 31 % 256) as u8).collect();
    let compressed = oxipng::deflate::deflater::deflate(&data, 12, None).expect("libdeflate");
    assert_eq!(inflate(&compressed, data.len()).expect("inflate"), data);
    let small = oxipng::deflate::deflater::deflate(&data, 6, Some(10));
    assert!(matches!(small, Err(PngError::DeflatedDataTooLong(_))));
}
