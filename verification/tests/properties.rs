//! What holds of the library as a whole, on concrete values.

use png_spark::adler32::{adler32, Adler32};
use png_spark::crc32::crc32;
use png_spark::deflate::{compress_zlib, Deflater};
use png_spark::filter::{filter_row, unfilter_image};
use png_spark::huffman::{canonical_codes, Builder};
use png_spark::inflate::decompress_zlib;
use png_spark::selection::choose_filter;
use png_spark::tables::{dist_symbol, DIST_BASE};
use png_spark::{
    decode, encode, encode_rgba8, read_info, BitDepth, Chunk, ColorType, Decoder, Encoder, Error,
    Filter, FilterStrategy, Image, Info, Interlacing, Keep,
};

fn picture(info: &Info) -> Vec<u8> {
    (0..info.output_size()).map(|i| (i * 7 + i / 13) as u8).collect()
}

#[test]
fn sizes_follow_from_the_header() {
    let info = Info::new(10, 3, ColorType::Grayscale, BitDepth::One);
    assert_eq!((info.bits_per_pixel(), info.filter_stride()), (1, 1));
    assert_eq!((info.row_bytes(), info.output_size(), info.decompressed_size()), (2, 6, 9));
    let info = Info::new(5, 2, ColorType::Rgba, BitDepth::Sixteen);
    assert_eq!((info.bits_per_pixel(), info.filter_stride()), (64, 8));
    assert_eq!((info.row_bytes(), info.output_size(), info.decompressed_size()), (40, 80, 82));
}

#[test]
fn the_smallest_file() {
    let png = encode(&Info::new(1, 1, ColorType::Grayscale, BitDepth::Eight), &[200]).unwrap();
    assert_eq!(&png[..8], &[137, 80, 78, 71, 13, 10, 26, 10]);
    assert_eq!(&png[8..16], &[0, 0, 0, 13, 73, 72, 68, 82]);
    assert_eq!(&png[16..29], &[0, 0, 0, 1, 0, 0, 0, 1, 8, 0, 0, 0, 0]);
    let end = png.len() - 12;
    assert_eq!(&png[end..], &[0, 0, 0, 0, 73, 69, 78, 68, 174, 66, 96, 130]);
}

#[test]
fn a_file_reads_back_whatever_the_strategy() {
    let mut info = Info::new(19, 11, ColorType::Rgb, BitDepth::Eight);
    info.transparency = Some(vec![0, 1, 0, 2, 0, 3]);
    info.metadata.push(Chunk::new(*b"teSt", vec![1, 2, 3]));
    let data = picture(&info);
    for strategy in [
        FilterStrategy::Adaptive,
        FilterStrategy::Sampled,
        FilterStrategy::Fixed(Filter::Raw),
        FilterStrategy::Fixed(Filter::Sub),
        FilterStrategy::Fixed(Filter::Up),
        FilterStrategy::Fixed(Filter::Average),
        FilterStrategy::Fixed(Filter::Paeth),
    ] {
        let mut png = Vec::new();
        Encoder::new().filter(strategy).encode(&info, &data, &mut png).unwrap();
        let image = Decoder::new().keep(Keep::All).decode(&png).unwrap();
        assert_eq!(image, Image { info: info.clone(), data: data.clone() });
        assert_eq!(Decoder::new().keep(Keep::All).read_info(&png), Ok(info.clone()));
    }
}

#[test]
fn the_order_of_metadata_settles_after_one_trip() {
    // Chunks that belong in front of the palette move there, and stay.
    let mut info = Info::new(1, 1, ColorType::Indexed, BitDepth::Eight);
    info.palette = Some(vec![1, 2, 3]);
    info.metadata = vec![
        Chunk::new(*b"teSt", vec![1]),
        Chunk::new(*b"gAMA", vec![0, 0, 177, 143]),
        Chunk::new(*b"teSt", vec![2]),
    ];
    let once = Decoder::new().keep(Keep::All).decode(&encode(&info, &[0]).unwrap()).unwrap();
    let kinds: Vec<[u8; 4]> = once.info.metadata.iter().map(|chunk| chunk.kind).collect();
    assert_eq!(kinds, [*b"gAMA", *b"teSt", *b"teSt"]);
    assert_eq!(once.info.metadata[2].data, vec![2]);
    let twice =
        Decoder::new().keep(Keep::All).decode(&encode(&once.info, &once.data).unwrap()).unwrap();
    assert_eq!(twice, once);
}

#[test]
fn a_cut_file_is_refused() {
    let info = Info::new(4, 4, ColorType::Rgb, BitDepth::Eight);
    let png = encode(&info, &picture(&info)).unwrap();
    for cut in 0..png.len() {
        assert!(decode(&png[..cut]).is_err(), "cut at {cut}");
    }
    assert_eq!(decode(&png[..png.len() - 12]), Err(Error::TruncatedChunk));
}

#[test]
fn the_header_read_accepts_what_a_decode_accepts() {
    let mut info = Info::new(2, 2, ColorType::Indexed, BitDepth::Four);
    info.palette = Some(vec![9; 48]);
    let png = encode(&info, &[0x12, 0x34]).unwrap();
    assert_eq!(read_info(&png), Ok(decode(&png).unwrap().info));
    // Without its last byte only the header can be read.
    let cut = &png[..png.len() - 1];
    assert!(decode(cut).is_err());
    assert_eq!(read_info(cut), Ok(info));
}

#[test]
fn rgb_is_rgba_without_alpha() {
    for (color_type, bit_depth) in [
        (ColorType::Grayscale, BitDepth::Two),
        (ColorType::Grayscale, BitDepth::Sixteen),
        (ColorType::GrayscaleAlpha, BitDepth::Eight),
        (ColorType::Rgb, BitDepth::Sixteen),
        (ColorType::Rgba, BitDepth::Eight),
    ] {
        let info = Info::new(7, 3, color_type, bit_depth);
        let data = picture(&info);
        let image = Image { info, data };
        let rgba = image.to_rgba8().unwrap();
        let rgb = image.to_rgb8().unwrap();
        assert_eq!((rgb.len(), rgba.len()), (63, 84));
        let kept: Vec<u8> =
            rgba.iter().enumerate().filter(|(i, _)| i % 4 != 3).map(|(_, byte)| *byte).collect();
        assert_eq!(rgb, kept);
    }
}

#[test]
fn conversion_needs_a_palette_that_covers() {
    let info = Info::new(2, 1, ColorType::Indexed, BitDepth::Eight);
    let mut image = Image { info, data: vec![0, 1] };
    assert_eq!(image.to_rgb8(), Err(Error::MissingPalette));
    image.info.palette = Some(vec![5, 6, 7]);
    assert_eq!(image.to_rgb8(), Err(Error::PaletteIndexOutOfRange));
    image.info.palette = Some(vec![5, 6, 7, 8, 9, 10]);
    assert_eq!(image.to_rgb8(), Ok(vec![5, 6, 7, 8, 9, 10]));
    assert_eq!(image.to_rgba8(), Ok(vec![5, 6, 7, 255, 8, 9, 10, 255]));
}

#[test]
fn images_without_pixels_convert_to_nothing() {
    let image = Image { info: Info::new(0, 3, ColorType::Rgb, BitDepth::One), data: vec![] };
    assert_eq!((image.to_rgb8(), image.to_rgba8()), (Ok(vec![]), Ok(vec![])));
    let image = Image { info: Info::new(3, 0, ColorType::Rgba, BitDepth::Eight), data: vec![] };
    assert_eq!((image.to_rgb8(), image.to_rgba8()), (Ok(vec![]), Ok(vec![])));
    let image = Image { info: Info::new(3, 3, ColorType::Indexed, BitDepth::Sixteen), data: vec![] };
    assert_eq!(image.to_rgba8(), Err(Error::MissingPalette));
}

#[test]
fn a_grey_key_is_compared_at_full_depth() {
    let mut info = Info::new(2, 1, ColorType::Grayscale, BitDepth::Sixteen);
    info.transparency = Some(vec![0x12, 0x34]);
    let image = Image { info, data: vec![0x12, 0x34, 0x12, 0x35] };
    assert_eq!(image.to_rgba8(), Ok(vec![0x12, 0x12, 0x12, 0, 0x12, 0x12, 0x12, 255]));
}

#[test]
fn what_was_decoded_encodes_again() {
    let png = encode_rgba8(3, 2, &(0..24).collect::<Vec<u8>>()).unwrap();
    let first = decode(&png).unwrap();
    let second = decode(&encode(&first.info, &first.data).unwrap()).unwrap();
    assert_eq!(first, second);
}

#[test]
fn checksums_can_be_split_anywhere() {
    let data: Vec<u8> = (0..6000u32).map(|i| (i * 31 >> 2) as u8).collect();
    for cut in [0, 1, 15, 16, 17, 5551, 5552, 5553, 6000] {
        let mut sum = Adler32::new();
        sum.update(&data[..cut]);
        sum.update(&data[cut..]);
        assert_eq!(sum.finish(), adler32(&data), "cut at {cut}");
    }
    assert_eq!(crc32(b"IEND"), 0xae42_6082);
}

#[test]
fn one_piece_makes_the_same_stream_as_one_call() {
    let data: Vec<u8> = (0..100_000u32).map(|i| (i % 251) as u8).collect();
    let mut pieces = Vec::new();
    let mut deflater = Deflater::new();
    let mut stream = deflater.zlib_start(&mut pieces);
    deflater.zlib_push(&mut stream, &data, true, &mut pieces);
    assert_eq!(pieces, compress_zlib(&data));
    assert_eq!(decompress_zlib(&pieces, data.len()), Ok(data));
}

#[test]
fn filters_have_exact_residuals() {
    let (previous, row) = ([10u8, 20, 30, 40], [11u8, 23, 36, 50]);
    let residuals = |filter| {
        let mut out = [0u8; 4];
        filter_row::<1>(filter, &previous, &row, &mut out);
        out
    };
    assert_eq!(residuals(Filter::Raw), [11, 23, 36, 50]);
    assert_eq!(residuals(Filter::Sub), [11, 12, 13, 14]);
    assert_eq!(residuals(Filter::Up), [1, 3, 6, 10]);
    assert_eq!(residuals(Filter::Average), [6, 8, 10, 12]);
    assert_eq!(residuals(Filter::Paeth), [1, 3, 6, 10]);

    let mut buffer = vec![1, 10, 10, 10, 10, 2, 1, 3, 6, 10];
    assert_eq!(unfilter_image(&mut buffer, 4, 2, 1), Ok(()));
    assert_eq!(&buffer[..8], &[10, 20, 30, 40, 11, 23, 36, 50]);
    assert_eq!(unfilter_image(&mut [0, 1, 5, 1], 1, 2, 1), Err(1));
}

#[test]
fn the_filter_with_the_least_residuals_is_chosen() {
    // A copy of the row above: `Up` leaves nothing.
    let row = [9u8, 80, 3, 120, 7, 66];
    assert_eq!(choose_filter::<1>(&row, &row, 1, Filter::Raw), Filter::Up);
    // A ramp below an unrelated row: `Sub` leaves one per byte.
    let ramp = [1u8, 2, 3, 4, 5, 6];
    assert_eq!(choose_filter::<1>(&[90, 10, 80, 20, 70, 30], &ramp, 1, Filter::Raw), Filter::Sub);
    // Where nothing distinguishes the filters, the one of the row before stays.
    assert_eq!(choose_filter::<1>(&[0; 4], &[0; 4], 1, Filter::Average), Filter::Average);
    // `Up` scores seven here and `Sub` eight: an eighth less is what a switch takes.
    assert_eq!(choose_filter::<1>(&[1, 8], &[8, 8], 1, Filter::Sub), Filter::Sub);
}

#[test]
fn every_distance_has_one_symbol() {
    assert_eq!([1, 2, 4, 5, 6, 7, 24576, 24577, 32768].map(dist_symbol), [0, 1, 3, 4, 4, 5, 28, 29, 29]);
    for (symbol, &base) in DIST_BASE.iter().enumerate() {
        assert_eq!(dist_symbol(base) as usize, symbol);
    }
}

fn lengths_for(frequencies: &[u32], ceiling: usize) -> Vec<u8> {
    let mut lengths = vec![0; frequencies.len()];
    Builder::new().code_lengths(frequencies, &mut lengths, ceiling);
    lengths
}

fn bits(frequencies: &[u32], lengths: &[u8]) -> u64 {
    frequencies.iter().zip(lengths).map(|(&f, &l)| f as u64 * l as u64).sum()
}

#[test]
fn code_lengths_of_given_frequencies() {
    assert_eq!(lengths_for(&[0, 0, 0], 15), [1, 1, 0]);
    assert_eq!(lengths_for(&[0, 7, 0], 15), [1, 1, 0]);
    assert_eq!(lengths_for(&[1, 1, 2, 4], 15), [3, 3, 2, 1]);
    assert_eq!(lengths_for(&[1, 1, 2, 4], 2), [2, 2, 2, 2]);
    assert_eq!(lengths_for(&[5, 55, 55, 5, 21], 15), [4, 2, 1, 4, 3]);
    assert_eq!(lengths_for(&[5, 55, 55, 5, 21], 3), [3, 3, 1, 3, 3]);
}

#[test]
fn no_lengths_that_fit_do_better() {
    for frequencies in [[1, 1, 1, 1, 1], [1, 2, 4, 8, 16], [9, 9, 1, 1, 1], [5, 55, 55, 5, 21]] {
        let least = bits(&frequencies, &lengths_for(&frequencies, 15));
        // Every choice of five lengths between one and five.
        for choice in 0..5usize.pow(5) {
            let other: Vec<u8> =
                (0..5).map(|place| (choice / 5usize.pow(place) % 5 + 1) as u8).collect();
            let space: u32 = other.iter().map(|&length| 32 >> length).sum();
            if space <= 32 {
                assert!(least <= bits(&frequencies, &other), "{frequencies:?} {other:?}");
            }
        }
    }
}

#[test]
fn any_step_can_be_sampled() {
    // Beyond the first two pixels nothing is scored: the rest of the row decides nothing.
    let mut row = vec![5u8, 6];
    row.extend((0..40).map(|i| (i * 77) as u8));
    let previous = vec![0u8; row.len()];
    let first = choose_filter::<1>(&previous, &row, 100, Filter::Raw);
    assert_eq!(first, choose_filter::<1>(&previous[..2], &row[..2], 1, Filter::Raw));
    assert_eq!(first, choose_filter::<1>(&previous, &row, usize::MAX, Filter::Raw));
}

#[test]
fn bytes_behind_the_records_stay() {
    let mut buffer = vec![0, 1, 2, 1, 3, 4, 77, 78, 79];
    assert_eq!(unfilter_image(&mut buffer, 2, 2, 1), Ok(()));
    assert_eq!(&buffer[..4], &[1, 2, 3, 7]);
    assert_eq!(&buffer[6..], &[77, 78, 79]);
}

#[test]
fn interlacing_is_not_written() {
    let info = Info::new(9, 5, ColorType::Grayscale, BitDepth::Eight);
    let mut interlaced = info.clone();
    interlaced.interlacing = Interlacing::Adam7;
    let data = picture(&info);
    assert_eq!(encode(&interlaced, &data), encode(&info, &data));
}

#[test]
fn rgba_pixels_come_back() {
    let data: Vec<u8> = (0..60).map(|i| (i * 5) as u8).collect();
    let png = encode_rgba8(5, 3, &data).unwrap();
    assert_eq!(decode(&png).unwrap().to_rgba8(), Ok(data.clone()));
    assert_eq!(
        encode_rgba8(5, 3, &data[1..]),
        Err(Error::WrongBufferSize { expected: 60, found: 59 })
    );
}

#[test]
fn an_incomplete_tree_leaves_the_codes_alone() {
    let mut codes = [9u16; 4];
    assert!(!canonical_codes(&[0, 0, 0], &mut codes));
    assert!(!canonical_codes(&[1, 0, 0], &mut codes));
    assert!(!canonical_codes(&[1, 1, 1], &mut codes));
    assert_eq!(codes, [9; 4]);
    assert!(canonical_codes(&[2, 1, 2], &mut codes));
    assert_eq!(codes, [0b01, 0, 0b11, 9]);
}
