//! Every way a file or an image can be refused.

use png_spark::common::{zeroed_vec, SIGNATURE};
use png_spark::crc32::crc32;
use png_spark::deflate::compress_zlib;
use png_spark::inflate::InflateError;
use png_spark::{
    decode, encode, read_info, BitDepth, Checks, Chunk, ColorType, Decoder, Error, Info,
    Interlacing, Keep,
};

fn chunk(kind: &[u8; 4], body: &[u8]) -> Vec<u8> {
    let mut bytes = (body.len() as u32).to_be_bytes().to_vec();
    bytes.extend_from_slice(kind);
    bytes.extend_from_slice(body);
    bytes.extend_from_slice(&crc32(&bytes[4..]).to_be_bytes());
    bytes
}

fn ihdr(width: u32, height: u32, rest: [u8; 5]) -> Vec<u8> {
    let mut body = width.to_be_bytes().to_vec();
    body.extend_from_slice(&height.to_be_bytes());
    body.extend_from_slice(&rest);
    chunk(b"IHDR", &body)
}

fn png(chunks: &[Vec<u8>]) -> Vec<u8> {
    let mut bytes = SIGNATURE.to_vec();
    for part in chunks {
        bytes.extend_from_slice(part);
    }
    bytes
}

/// A grey image of two pixels by one, whose scanline holds `row`.
fn grey(row: &[u8]) -> Vec<u8> {
    png(&[ihdr(2, 1, [8, 0, 0, 0, 0]), chunk(b"IDAT", &compress_zlib(row)), chunk(b"IEND", b"")])
}

#[test]
fn a_file_put_together_by_hand_decodes() {
    let image = decode(&grey(&[0, 7, 9])).unwrap();
    assert_eq!(image.data, vec![7, 9]);
    assert_eq!((image.width(), image.height()), (2, 1));
    assert_eq!(image.color_type(), ColorType::Grayscale);
    assert_eq!(image.bit_depth(), BitDepth::Eight);
}

#[test]
fn the_signature_comes_first() {
    assert_eq!(decode(b""), Err(Error::NotAPng));
    assert_eq!(decode(&SIGNATURE[..7]), Err(Error::NotAPng));
    let mut file = grey(&[0, 7, 9]);
    file[0] = 0x88;
    assert_eq!(decode(&file), Err(Error::NotAPng));
}

#[test]
fn the_header_comes_next() {
    assert_eq!(decode(&SIGNATURE), Err(Error::MissingHeader));
    assert_eq!(decode(&png(&[chunk(b"IEND", b"")])), Err(Error::MissingHeader));
    assert_eq!(
        decode(&png(&[chunk(b"IHDR", &[0; 12])])),
        Err(Error::InvalidChunkLength { chunk: *b"IHDR", length: 12 })
    );
}

#[test]
fn header_fields_are_checked_in_order() {
    let refused = |rest: [u8; 5]| decode(&png(&[ihdr(1, 1, rest)])).unwrap_err();
    assert_eq!(refused([3, 9, 1, 1, 9]), Error::InvalidBitDepth { color_type: 9, bit_depth: 3 });
    assert_eq!(refused([8, 1, 1, 1, 9]), Error::InvalidColorType(1));
    assert_eq!(
        refused([8, 0, 1, 1, 9]),
        Error::UnsupportedMethod { field: "compression method", value: 1 }
    );
    assert_eq!(
        refused([8, 0, 0, 1, 9]),
        Error::UnsupportedMethod { field: "filter method", value: 1 }
    );
    assert_eq!(refused([8, 0, 0, 0, 2]), Error::InvalidInterlaceMethod(2));
    assert_eq!(refused([4, 2, 0, 0, 0]), Error::InvalidBitDepth { color_type: 2, bit_depth: 4 });
    assert_eq!(refused([16, 3, 0, 0, 0]), Error::InvalidBitDepth { color_type: 3, bit_depth: 16 });
    assert_eq!(decode(&png(&[ihdr(0, 1, [8, 0, 0, 0, 0])])), Err(Error::EmptyImage));
    assert_eq!(decode(&png(&[ihdr(1, 0, [8, 0, 0, 0, 0])])), Err(Error::EmptyImage));
}

#[test]
fn an_image_beyond_the_address_space_is_too_large() {
    let most = u32::MAX;
    let huge = Info::new(most, most, ColorType::Rgba, BitDepth::Sixteen);
    assert_eq!(huge.validate(), Err(Error::ImageTooLarge));
    assert_eq!(decode(&png(&[ihdr(most, most, [16, 6, 0, 0, 0])])), Err(Error::ImageTooLarge));
    // One byte per pixel still fits half the address space of a 64-bit machine.
    assert_eq!(Info::new(1 << 31, 1 << 31, ColorType::Grayscale, BitDepth::Eight).validate(), Ok(()));
}

#[test]
fn a_refused_allocation_is_an_error() {
    let file = png(&[
        ihdr(1 << 31, 1 << 31, [8, 0, 0, 0, 0]),
        chunk(b"IDAT", &compress_zlib(&[0])),
        chunk(b"IEND", b""),
    ]);
    let bytes = ((1usize << 31) + 1) * (1 << 31) + 16;
    assert_eq!(
        Decoder::new().max_decompressed_size(None).decode(&file),
        Err(Error::OutOfMemory { bytes })
    );
    assert!(zeroed_vec(bytes).is_none());
    assert_eq!(
        decode(&file),
        Err(Error::SizeLimitExceeded { size: bytes - 16, limit: 512 << 20 })
    );
}

#[test]
fn chunks_must_be_whole() {
    let whole = grey(&[0, 7, 9]);
    assert_eq!(decode(&whole[..10]), Err(Error::TruncatedChunk));
    assert_eq!(decode(&whole[..20]), Err(Error::TruncatedChunk));
    assert_eq!(decode(&whole[..whole.len() - 1]), Err(Error::TruncatedChunk));
    // A length beyond what the format allows.
    let mut long = whole.clone();
    long[33] = 0x80;
    assert_eq!(decode(&long), Err(Error::TruncatedChunk));
}

#[test]
fn a_file_that_lacks_only_its_end_is_cut_short() {
    let whole = grey(&[0, 7, 9]);
    let cut = &whole[..whole.len() - 12];
    assert_eq!(decode(cut), Err(Error::TruncatedChunk));
    assert_eq!(read_info(cut), read_info(&whole));
    // Without image data that is what is missing.
    assert_eq!(decode(&png(&[ihdr(1, 1, [8, 0, 0, 0, 0])])), Err(Error::MissingImageData));
}

#[test]
fn an_inserted_critical_chunk_is_named() {
    let whole = grey(&[0, 7, 9]);
    let end = whole.len() - 12;
    for at in [33, end] {
        let with = |extra: &[u8]| [&whole[..at], extra, &whole[at..]].concat();
        let mut strange = chunk(b"ABCD", b"xy");
        assert_eq!(
            decode(&with(&strange)),
            Err(Error::UnknownCriticalChunk { chunk: *b"ABCD" })
        );
        strange[9] ^= 1;
        assert_eq!(decode(&with(&strange)), Err(Error::BadChunkCrc { chunk: *b"ABCD" }));
        let mut ancillary = chunk(b"abCd", b"xy");
        ancillary[9] ^= 1;
        let image = Decoder::new().keep(Keep::All).decode(&with(&ancillary));
        assert_eq!(image, decode(&whole));
    }
}

#[test]
fn critical_chunks_must_be_intact_and_known() {
    let mut file = grey(&[0, 7, 9]);
    file[45] ^= 1;
    assert_eq!(decode(&file), Err(Error::BadChunkCrc { chunk: *b"IDAT" }));
    assert!(Decoder::new().checks(Checks::Nothing).decode(&grey(&[0, 7, 9])).is_ok());
    let strange = png(&[ihdr(1, 1, [8, 0, 0, 0, 0]), chunk(b"ABCD", b"")]);
    assert_eq!(decode(&strange), Err(Error::UnknownCriticalChunk { chunk: *b"ABCD" }));
}

#[test]
fn there_must_be_image_data() {
    let file = png(&[ihdr(1, 1, [8, 0, 0, 0, 0]), chunk(b"IEND", b"")]);
    assert_eq!(decode(&file), Err(Error::MissingImageData));
    assert_eq!(read_info(&file), Err(Error::MissingImageData));
}

#[test]
fn palettes_are_checked() {
    let indexed = |palette: &[u8], row: &[u8]| {
        png(&[
            ihdr(2, 1, [8, 3, 0, 0, 0]),
            chunk(b"PLTE", palette),
            chunk(b"IDAT", &compress_zlib(row)),
            chunk(b"IEND", b""),
        ])
    };
    assert!(decode(&indexed(&[1, 2, 3, 4, 5, 6], &[0, 0, 1])).is_ok());
    assert_eq!(
        decode(&indexed(&[1, 2, 3, 4, 5, 6], &[0, 0, 2])),
        Err(Error::PaletteIndexOutOfRange)
    );
    assert_eq!(decode(&indexed(&[], &[0, 0, 0])), Err(Error::MissingPalette));
    assert_eq!(
        decode(&indexed(&[1, 2, 3, 4], &[0, 0, 0])),
        Err(Error::InvalidChunkLength { chunk: *b"PLTE", length: 4 })
    );
    assert_eq!(
        decode(&indexed(&[0; 771], &[0, 0, 0])),
        Err(Error::InvalidChunkLength { chunk: *b"PLTE", length: 771 })
    );
    let bare = png(&[
        ihdr(2, 1, [8, 3, 0, 0, 0]),
        chunk(b"IDAT", &compress_zlib(&[0, 0, 0])),
        chunk(b"IEND", b""),
    ]);
    assert_eq!(decode(&bare), Err(Error::MissingPalette));
}

#[test]
fn packed_palette_indices_are_checked() {
    // Two-bit indices 0, 1, 2 of a palette with three entries, then one that runs past it.
    let file = |byte: u8| {
        png(&[
            ihdr(3, 1, [2, 3, 0, 0, 0]),
            chunk(b"PLTE", &[0; 9]),
            chunk(b"IDAT", &compress_zlib(&[0, byte])),
            chunk(b"IEND", b""),
        ])
    };
    assert_eq!(decode(&file(0b00_01_10_00)).unwrap().data, vec![0b00_01_10_00]);
    assert_eq!(decode(&file(0b00_11_10_00)), Err(Error::PaletteIndexOutOfRange));
    // Bits behind the last pixel are no index.
    assert!(decode(&file(0b00_01_10_11)).is_ok());
}

#[test]
fn late_colour_chunks_are_dropped() {
    let file = png(&[
        ihdr(2, 1, [8, 0, 0, 0, 0]),
        chunk(b"IDAT", &compress_zlib(&[0, 7, 9])),
        chunk(b"PLTE", &[1, 2, 3]),
        chunk(b"tRNS", &[9; 40]),
        chunk(b"IEND", b""),
    ]);
    let image = decode(&file).unwrap();
    assert_eq!((image.info.palette, image.info.transparency), (None, None));
}

#[test]
fn transparency_must_suit_the_colour_type() {
    let file = |rest: [u8; 5], length: usize| {
        decode(&png(&[ihdr(1, 1, rest), chunk(b"tRNS", &vec![0; length])])).unwrap_err()
    };
    let refused = |length| Error::InvalidChunkLength { chunk: *b"tRNS", length };
    assert_eq!(file([8, 0, 0, 0, 0], 1), refused(1));
    assert_eq!(file([8, 0, 0, 0, 0], 2), Error::MissingImageData);
    assert_eq!(file([8, 2, 0, 0, 0], 5), refused(5));
    assert_eq!(file([8, 2, 0, 0, 0], 6), Error::MissingImageData);
    assert_eq!(file([8, 3, 0, 0, 0], 257), refused(257));
    assert_eq!(file([8, 4, 0, 0, 0], 2), refused(2));
    assert_eq!(file([8, 6, 0, 0, 0], 0), refused(0));
}

#[test]
fn filter_bytes_are_checked() {
    assert_eq!(decode(&grey(&[5, 7, 9])), Err(Error::InvalidFilter { row: 0 }));
}

#[test]
fn the_stream_must_fill_the_image_exactly() {
    assert_eq!(
        decode(&grey(&[0, 7])),
        Err(Error::Inflate(InflateError::OutputUnderflow))
    );
    assert_eq!(
        decode(&grey(&[0, 7, 9, 11])),
        Err(Error::Inflate(InflateError::OutputOverflow))
    );
    assert_eq!(Error::from(InflateError::OutputOverflow), Error::Inflate(InflateError::OutputOverflow));
}

#[test]
fn the_inner_checksum_is_checked_on_request() {
    let mut stream = compress_zlib(&[0, 7, 9]);
    let end = stream.len() - 1;
    stream[end] ^= 1;
    let file = png(&[ihdr(2, 1, [8, 0, 0, 0, 0]), chunk(b"IDAT", &stream), chunk(b"IEND", b"")]);
    assert!(decode(&file).is_ok());
    assert_eq!(
        Decoder::new().checks(Checks::Full).decode(&file),
        Err(Error::Inflate(InflateError::WrongChecksum))
    );
}

#[test]
fn the_encoder_refuses_what_it_cannot_write() {
    let info = Info::new(2, 1, ColorType::Rgb, BitDepth::Eight);
    assert_eq!(
        encode(&info, &[0; 5]),
        Err(Error::WrongBufferSize { expected: 6, found: 5 })
    );
    let bad = Info::new(2, 1, ColorType::Rgb, BitDepth::Four);
    assert_eq!(
        encode(&bad, &[0; 3]),
        Err(Error::InvalidBitDepth { color_type: 2, bit_depth: 4 })
    );
    let indexed = Info::new(2, 1, ColorType::Indexed, BitDepth::Eight);
    assert_eq!(encode(&indexed, &[0; 2]), Err(Error::MissingPalette));
    let mut long = indexed.clone();
    long.palette = Some(vec![0; 771]);
    assert_eq!(
        encode(&long, &[0; 2]),
        Err(Error::InvalidChunkLength { chunk: *b"PLTE", length: 771 })
    );
    let mut keyed = info.clone();
    keyed.transparency = Some(vec![0; 2]);
    assert_eq!(
        encode(&keyed, &[0; 6]),
        Err(Error::InvalidChunkLength { chunk: *b"tRNS", length: 2 })
    );
    let mut first = info.clone();
    first.metadata = vec![Chunk::new(*b"good", vec![]), Chunk::new(*b"gooD", vec![])];
    assert_eq!(encode(&first, &[0; 6]), Err(Error::InvalidChunkType { chunk: *b"good" }));
}

#[test]
fn an_interlaced_description_is_written_sequentially() {
    let mut info = Info::new(3, 3, ColorType::Grayscale, BitDepth::Eight);
    info.interlacing = Interlacing::Adam7;
    let data: Vec<u8> = (1..=9).collect();
    let image = decode(&encode(&info, &data).unwrap()).unwrap();
    assert_eq!(image.info.interlacing, Interlacing::Sequential);
    assert_eq!(image.data, data);
}
