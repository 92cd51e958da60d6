use oxipng::apng::Frame;
use oxipng::colors::{BitDepth, ColorType};
use oxipng::deflate::deflate;
use oxipng::error::PngError;
use oxipng::filters::FilterStrategy;
use oxipng::headers::{Chunk, IhdrData};
use oxipng::options::StripChunks;
use oxipng::png::PngImage;
use oxipng::png_data::PngData;
use oxipng::Options;
use oxipng::deflate::Deflaters;

fn options(strip: StripChunks) -> Options {
    Options {
        backup: false,
        out_file: String::new(),
        out_dir: None,
        stdout: false,
        fix_errors: false,
        pretend: false,
        recursive: false,
        clobber: true,
        create: true,
        force: false,
        preserve_attrs: false,
        verbosity: None,
        filter: vec![],
        interlace: None,
        compression: vec![6],
        memory: vec![9],
        strategies: vec![],
        window: 15,
        bit_depth_reduction: false,
        color_type_reduction: false,
        palette_reduction: false,
        idat_recoding: false,
        strip,
        use_heuristics: false,
        max_decompressed_size: None,
        optimize_alpha: false,
        brute_lines: 3,
        brute_level: 1,
        deflater: Deflaters::Zlib,
        zopfli_iterations: 15,
    }
}

fn gray_image() -> PngImage {
    PngImage {
        ihdr: IhdrData {
            width: 4,
            height: 3,
            color_type: ColorType::Grayscale { transparent_shade: None },
            bit_depth: BitDepth::Eight,
            interlaced: false,
        },
        data: vec![0, 10, 20, 30, 40, 50, 60, 70, 80, 90, 100, 110],
    }
}

fn encoded(png: &PngImage, aux: Vec<Chunk>) -> Vec<u8> {
    let (filtered, _) = png.filter_image(FilterStrategy::sub(), false);
    let idat = deflate(&filtered, 6).expect("deflate");
    let data = PngData { raw: png.clone(), idat_data: idat, aux_chunks: aux, frames: vec![] };
    data.output()
}

#[test]
fn output_reads_back() {
    let png = gray_image();
    let text = Chunk { name: *b"tEXt", data: b"Comment\0hi".to_vec() };
    let bytes = encoded(&png, vec![text]);
    assert_eq!(&bytes[0..8], &[0x89, 0x50, 0x4E, 0x47, 0x0D, 0x0A, 0x1A, 0x0A]);
    // The IEND chunk and its CRC close the stream.
    assert_eq!(&bytes[bytes.len() - 12..], &[0, 0, 0, 0, b'I', b'E', b'N', b'D', 0xAE, 0x42, 0x60, 0x82]);
    let read = PngData::from_slice(&bytes, &options(StripChunks::KeepAll)).expect("read");
    assert_eq!(read.raw.data, png.data);
    assert_eq!(read.raw.ihdr.width, 4);
    assert_eq!(read.raw.ihdr.height, 3);
    // The text chunk, then an empty IDAT chunk that marks where the image data stood.
    assert_eq!(read.aux_chunks.len(), 2);
    assert_eq!(read.aux_chunks[0].name, *b"tEXt");
    assert_eq!(read.aux_chunks[0].data, b"Comment\0hi".to_vec());
    assert_eq!(read.aux_chunks[1].name, *b"IDAT");
    assert!(read.aux_chunks[1].data.is_empty());
    assert!(!read.idat_data.is_empty());
}

#[test]
fn stripping_drops_chunks_while_reading() {
    let png = gray_image();
    let aux = vec![
        Chunk { name: *b"tEXt", data: b"a\0b".to_vec() },
        Chunk { name: *b"gAMA", data: vec![0, 0, 177, 143] },
    ];
    let bytes = encoded(&png, aux);
    let names = |d: &PngData| d.aux_chunks.iter().map(|c| c.name).collect::<Vec<_>>();
    let all = PngData::from_slice(&bytes, &options(StripChunks::All)).expect("read");
    assert_eq!(names(&all), vec![*b"IDAT"]);
    let safe = PngData::from_slice(&bytes, &options(StripChunks::Safe)).expect("read");
    assert_eq!(names(&safe), vec![*b"gAMA", *b"IDAT"]);
    let listed = PngData::from_slice(&bytes, &options(StripChunks::Strip(vec![*b"gAMA"]))).expect("read");
    assert_eq!(names(&listed), vec![*b"tEXt", *b"IDAT"]);
    let kept = PngData::from_slice(&bytes, &options(StripChunks::Keep(vec![*b"tEXt"]))).expect("read");
    assert_eq!(names(&kept), vec![*b"tEXt", *b"IDAT"]);
    assert_eq!(listed.raw.data, png.data);
}

#[test]
fn reading_rejects_what_is_not_png() {
    let short = PngData::from_slice(&[0x89, 0x50, 0x4E], &options(StripChunks::KeepAll));
    assert!(matches!(short, Err(PngError::TruncatedData)));
    let gif = PngData::from_slice(b"GIF89a-not-a-png-file", &options(StripChunks::KeepAll));
    assert!(matches!(gif, Err(PngError::NotPNG)));
}

#[test]
fn reading_detects_a_bad_crc() {
    let png = gray_image();
    let mut bytes = encoded(&png, vec![]);
    // The last byte of the IHDR chunk's CRC.
    bytes[8 + 8 + 13 + 3] ^= 0xFF;
    let read = PngData::from_slice(&bytes, &options(StripChunks::KeepAll));
    assert!(matches!(read, Err(PngError::CRCMismatch(name)) if name == *b"IHDR"));
    let mut fixing = options(StripChunks::KeepAll);
    fixing.fix_errors = true;
    let fixed = PngData::from_slice(&bytes, &fixing).expect("read");
    assert_eq!(fixed.raw.data, png.data);
}

#[test]
fn reading_enforces_the_size_limit() {
    let png = gray_image();
    let bytes = encoded(&png, vec![]);
    let mut limited = options(StripChunks::KeepAll);
    limited.max_decompressed_size = Some(10);
    let read = PngData::from_slice(&bytes, &limited);
    assert!(matches!(read, Err(PngError::InflatedDataTooLong(10))));
}

#[test]
fn short_animation_chunk_is_not_read() {
    let png = gray_image();
    let short = Chunk { name: *b"fcTL", data: vec![0, 0] };
    let bytes = encoded(&png, vec![short]);
    assert!(PngData::read_png(&bytes, &options(StripChunks::KeepAll)).is_none());
    // Stripped while reading, the chunk is never looked at.
    let stripped = PngData::read_png(&bytes, &options(StripChunks::All)).expect("readable");
    assert_eq!(stripped.expect("read").raw.data, png.data);
}

#[test]
fn read_png_reads_what_from_slice_reads() {
    let png = gray_image();
    let bytes = encoded(&png, vec![]);
    let read = PngData::read_png(&bytes, &options(StripChunks::KeepAll)).expect("readable").expect("read");
    assert_eq!(read.raw.data, png.data);
    let missing = PngData::read_png(&bytes[..20], &options(StripChunks::KeepAll)).expect("readable");
    assert!(matches!(missing, Err(PngError::TruncatedData)));
}

#[test]
fn idot_is_always_stripped() {
    let png = gray_image();
    let idot = Chunk { name: *b"iDOT", data: vec![0; 8] };
    let bytes = encoded(&png, vec![idot]);
    let kept = PngData::from_slice(&bytes, &options(StripChunks::Keep(vec![*b"iDOT"]))).expect("read");
    assert!(kept.aux_chunks.iter().all(|c| &c.name != b"iDOT"));
    let all = PngData::from_slice(&bytes, &options(StripChunks::KeepAll)).expect("read");
    assert!(all.aux_chunks.iter().all(|c| &c.name != b"iDOT"));
}

#[test]
fn kept_c2pa_manifest_prevents_changes() {
    let png = gray_image();
    let cabx = Chunk { name: *b"caBX", data: vec![1, 2, 3] };
    let bytes = encoded(&png, vec![cabx]);
    let kept = PngData::from_slice(&bytes, &options(StripChunks::Keep(vec![*b"caBX"])));
    assert!(matches!(kept, Err(PngError::C2PAMetadataPreventsChanges)));
    let all = PngData::from_slice(&bytes, &options(StripChunks::KeepAll)).expect("read");
    assert!(all.aux_chunks.iter().all(|c| &c.name != b"caBX"));
}

#[test]
fn new_image_errors_follow_the_decompressed_size() {
    let png = gray_image();
    let (filtered, _) = png.filter_image(FilterStrategy::sub(), false);
    let idat = deflate(&filtered, 6).expect("deflate");
    let read = PngImage::new(png.ihdr.clone(), &idat).expect("decoded");
    assert_eq!(read.data, png.data);
    let short = deflate(&filtered[..filtered.len() - 1], 6).expect("deflate");
    assert!(matches!(PngImage::new(png.ihdr.clone(), &short), Err(PngError::TruncatedData)));
    let mut long_data = filtered.clone();
    long_data.push(0);
    let long = deflate(&long_data, 6).expect("deflate");
    assert!(matches!(PngImage::new(png.ihdr.clone(), &long), Err(PngError::InflatedDataTooLong(_))));
    let mut bad_filter = filtered.clone();
    bad_filter[0] = 9;
    let bad = deflate(&bad_filter, 6).expect("deflate");
    assert!(matches!(PngImage::new(png.ihdr.clone(), &bad), Err(PngError::InvalidData)));
    assert!(matches!(PngImage::new(png.ihdr.clone(), &[1, 2, 3]), Err(PngError::InvalidData)));
}

fn frame(width: u32, data: Vec<u8>) -> Frame {
    Frame {
        width,
        height: 1,
        x_offset: 0,
        y_offset: 0,
        delay_num: 1,
        delay_den: 10,
        dispose_op: 0,
        blend_op: 0,
        data,
    }
}

#[test]
fn output_length_counts_every_chunk_once() {
    let png = gray_image();
    let aux = vec![
        Chunk { name: *b"tEXt", data: b"abc".to_vec() },
        Chunk { name: *b"fcTL", data: vec![0; 26] },
        Chunk { name: *b"IDAT", data: vec![] },
        Chunk { name: *b"zTXt", data: vec![1, 2, 3, 4, 5] },
    ];
    let frames = vec![frame(2, vec![9, 9, 9]), frame(3, vec![])];
    let d = PngData { raw: png, idat_data: vec![1, 2, 3, 4, 5, 6, 7], aux_chunks: aux, frames };
    let out = d.output();
    // signature, IHDR, no key chunks, tEXt + fcTL + zTXt, IDAT, two frames, IEND
    let expected = 8 + 25 + (12 + 3) + (12 + 26) + (12 + 5) + (12 + 7) + (54 + 3) + (54 + 0) + 12;
    assert_eq!(out.len(), expected);
}

#[test]
fn frames_are_numbered_after_stored_fctl_chunks() {
    let png = gray_image();
    let aux = vec![Chunk { name: *b"fcTL", data: vec![0; 26] }, Chunk { name: *b"IDAT", data: vec![] }];
    let frames = vec![frame(2, vec![7]), frame(3, vec![8])];
    let idat = vec![1, 2, 3];
    let d = PngData { raw: png, idat_data: idat.clone(), aux_chunks: aux, frames };
    let out = d.output();
    // signature, IHDR, the stored fcTL, then IDAT
    let idat_at = 8 + 25 + 38;
    assert_eq!(&out[idat_at + 4..idat_at + 8], b"IDAT");
    let first = idat_at + 12 + idat.len();
    assert_eq!(&out[first + 4..first + 8], b"fcTL");
    assert_eq!(&out[first + 8..first + 12], &[0, 0, 0, 1]);
    let fdat = first + 38;
    assert_eq!(&out[fdat + 4..fdat + 8], b"fdAT");
    assert_eq!(&out[fdat + 8..fdat + 12], &[0, 0, 0, 2]);
    let second = fdat + 17;
    assert_eq!(&out[second + 4..second + 8], b"fcTL");
    assert_eq!(&out[second + 8..second + 12], &[0, 0, 0, 3]);
    assert_eq!(&out[second + 38 + 8..second + 38 + 12], &[0, 0, 0, 4]);
}
