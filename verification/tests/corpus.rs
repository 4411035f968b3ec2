//! Preparing files for a comparison of encoders.

use png_spark::cases::{extract_idat, test_image, Unfit};
use png_spark::common::Chunk;
use png_spark::corpus::{compression, normalise, shorten, Speed, Stats};
use png_spark::crc32::crc32;
use png_spark::encoder::filtered_stream;
use png_spark::inflate::decompress_zlib;
use png_spark::{encode, BitDepth, ColorType, Encoder, Error, Filter, FilterStrategy, Image, Info};

#[test]
fn image_data_is_extracted() {
    let info = Info::new(3, 2, ColorType::Rgb, BitDepth::Eight);
    let data: Vec<u8> = (0..18).collect();
    let mut png = Vec::new();
    Encoder::new()
        .filter(FilterStrategy::Fixed(Filter::Sub))
        .encode(&info, &data, &mut png)
        .unwrap();
    let idat = extract_idat(&png).unwrap();
    let raw = decompress_zlib(&idat, info.decompressed_size()).unwrap();
    assert_eq!(raw, filtered_stream(&info, &data, Filter::Sub));
    assert_eq!(raw[..10], [1, 0, 1, 2, 3, 3, 3, 3, 3, 3]);
}

#[test]
fn test_images_carry_their_streams() {
    let info = Info::new(3, 2, ColorType::Rgb, BitDepth::Eight);
    let data: Vec<u8> = (0..18).collect();
    let png = encode(&info, &data).unwrap();
    let test = test_image("ramp".to_string(), png.clone()).unwrap();
    assert_eq!(test.name, "ramp");
    assert_eq!(test.png, png);
    assert_eq!(test.pixels, data);
    assert_eq!((test.width, test.height), (3, 2));
    assert_eq!((test.color_type, test.bit_depth), (ColorType::Rgb, BitDepth::Eight));
    assert_eq!(Some(test.zlib_stream.clone()), extract_idat(&png));
    assert_eq!(Ok(test.raw_stream), decompress_zlib(&test.zlib_stream, info.decompressed_size()));

    assert_eq!(
        test_image(String::new(), b"text".to_vec()),
        Err(Unfit::Undecodable(Error::NotAPng))
    );
}

#[test]
fn streams_the_other_decompressor_refuses_are_disputed() {
    // The checksum of the image data is wrong, which the decoder does not look at by default.
    let info = Info::new(1, 1, ColorType::Grayscale, BitDepth::Eight);
    let mut png = encode(&info, &[7]).unwrap();
    let idat = extract_idat(&png).unwrap();
    let at = png.windows(4).position(|kind| kind == b"IDAT").unwrap();
    png[at + 4 + idat.len() - 1] ^= 1;
    let sum = crc32(&png[at..at + 4 + idat.len()]);
    png[at + 4 + idat.len()..at + 8 + idat.len()].copy_from_slice(&sum.to_be_bytes());
    assert_eq!(test_image(String::new(), png), Err(Unfit::Disputed));
}

#[test]
fn several_chunks_are_joined() {
    let mut png = vec![0u8; 8];
    for (kind, body) in [(b"IDAT", &b"ab"[..]), (b"teXt", b"xyz"), (b"IDAT", b"c"), (b"IEND", b""), (b"IDAT", b"d")] {
        png.extend_from_slice(&(body.len() as u32).to_be_bytes());
        png.extend_from_slice(kind);
        png.extend_from_slice(body);
        png.extend_from_slice(&[0; 4]);
    }
    assert_eq!(extract_idat(&png), Some(b"abc".to_vec()));
    assert_eq!(extract_idat(&png[..8 + 8 + 1]), None);
    assert_eq!(extract_idat(&png[..8 + 8 + 2]), Some(b"ab".to_vec()));
    assert_eq!(extract_idat(&[]), Some(vec![]));
}

fn image(color_type: ColorType, bit_depth: BitDepth, width: u32, data: Vec<u8>) -> Image {
    Image { info: Info::new(width, 1, color_type, bit_depth), data }
}

#[test]
fn grey_is_widened() {
    let source = normalise(&image(ColorType::Grayscale, BitDepth::Eight, 2, vec![3, 9])).unwrap();
    assert_eq!(source.pixels, vec![3, 3, 3, 255, 9, 9, 9, 255]);
    assert_eq!((source.info.color_type, source.info.bit_depth), (ColorType::Rgba, BitDepth::Eight));
    let source =
        normalise(&image(ColorType::GrayscaleAlpha, BitDepth::Eight, 2, vec![3, 4, 9, 8])).unwrap();
    assert_eq!(source.pixels, vec![3, 3, 3, 4, 9, 9, 9, 8]);
    assert_eq!(encode(&source.info, &source.pixels).is_ok(), true);
}

#[test]
fn palettes_are_expanded() {
    let mut indexed = image(ColorType::Indexed, BitDepth::Eight, 2, vec![1, 0]);
    assert_eq!(normalise(&indexed), Err(Error::MissingPalette));
    indexed.info.palette = Some(vec![1, 2, 3, 4, 5, 6]);
    let source = normalise(&indexed).unwrap();
    assert_eq!(source.pixels, vec![4, 5, 6, 1, 2, 3]);
    assert_eq!((source.info.color_type, source.info.palette), (ColorType::Rgb, None));
    indexed.info.transparency = Some(vec![7]);
    let source = normalise(&indexed).unwrap();
    assert_eq!(source.pixels, vec![4, 5, 6, 255, 1, 2, 3, 7]);
    assert_eq!((source.info.color_type, source.info.transparency), (ColorType::Rgba, None));
    indexed.data = vec![2, 0];
    assert_eq!(normalise(&indexed), Err(Error::PaletteIndexOutOfRange));
}

#[test]
fn other_layouts_stay() {
    let mut wide = image(ColorType::Grayscale, BitDepth::Sixteen, 1, vec![1, 2]);
    wide.info.metadata = vec![Chunk::new(*b"apPd", vec![5])];
    let source = normalise(&wide).unwrap();
    assert_eq!(source.pixels, vec![1, 2]);
    assert_eq!(source.info, wide.info);
}

#[test]
fn tallies_add_up() {
    let one = Stats {
        files: 1,
        pixels: 2,
        raw: 3,
        our_size: 4,
        their_size: 5,
        our_encode: 6,
        our_decode: 7,
        their_encode: 8,
        their_decode: 9,
    };
    let mut total = Stats::none();
    total.add(&one);
    assert_eq!(total, one);
    total.add(&one);
    assert_eq!((total.files, total.pixels, total.their_decode), (2, 4, 18));
}

#[test]
fn labels_fit_their_column() {
    assert_eq!(shorten("", 10), ".");
    assert_eq!(shorten("", 1), ".");
    assert_eq!(shorten("ab", 2), "ab");
    assert_eq!(shorten("photos", 6), "photos");
    assert_eq!(shorten("photographs", 6), "...phs");
    assert_eq!(shorten("\u{e9}\u{e8}\u{ea}\u{eb}", 3), "...");
}

#[test]
fn settings_have_names() {
    assert_eq!(compression("none"), Some(Speed::Uncompressed));
    assert_eq!(compression("fastest"), Some(Speed::Fastest));
    assert_eq!(compression("fast"), Some(Speed::Fast));
    assert_eq!(compression("balanced"), Some(Speed::Balanced));
    assert_eq!(compression("high"), Some(Speed::High));
    assert_eq!(compression("Fast"), None);
    assert_eq!(compression(""), None);
}
