//! What errors say.

use png_spark::inflate::InflateError;
use png_spark::Error;

#[test]
fn plain_messages() {
    let cases = [
        (Error::NotAPng, "data does not begin with a PNG signature"),
        (Error::TruncatedChunk, "file ended in the middle of a chunk"),
        (Error::MissingHeader, "file does not start with an IHDR chunk"),
        (Error::MissingImageData, "file contains no IDAT chunk"),
        (Error::MissingPalette, "indexed image has no PLTE chunk"),
        (Error::EmptyImage, "image has zero width or height"),
        (Error::ImageTooLarge, "image dimensions exceed the addressable range"),
        (Error::PaletteIndexOutOfRange, "palette index out of range"),
        (Error::Inflate(InflateError::WrongChecksum), "adler-32 checksum mismatch"),
    ];
    for (error, text) in cases {
        assert_eq!(error.to_string(), text);
    }
}

#[test]
fn messages_with_values() {
    let cases = [
        (Error::BadChunkCrc { chunk: *b"IDAT" }, "CRC mismatch in `IDAT` chunk"),
        (
            Error::InvalidChunkLength { chunk: *b"PLTE", length: 1234567890 },
            "invalid length 1234567890 for `PLTE` chunk",
        ),
        (
            Error::InvalidChunkType { chunk: *b"ap0d" },
            "`ap0d` is not a writable ancillary chunk type",
        ),
        (Error::UnknownCriticalChunk { chunk: *b"ABCD" }, "unrecognised critical chunk `ABCD`"),
        (
            Error::SizeLimitExceeded { size: 100, limit: 9 },
            "image expands to 100 bytes, over the 9 byte limit",
        ),
        (Error::OutOfMemory { bytes: 0 }, "could not allocate 0 bytes for the image"),
        (Error::InvalidColorType(255), "invalid colour type 255"),
        (
            Error::InvalidBitDepth { color_type: 2, bit_depth: 16 },
            "bit depth 16 is not valid for colour type 2",
        ),
        (
            Error::UnsupportedMethod { field: "filter method", value: 3 },
            "unsupported filter method 3",
        ),
        (Error::InvalidInterlaceMethod(7), "invalid interlace method 7"),
        (Error::InvalidFilter { row: 10 }, "invalid filter byte on row 10"),
        (
            Error::WrongBufferSize { expected: 12, found: 10 },
            "expected 12 bytes of pixel data, got 10",
        ),
    ];
    for (error, text) in cases {
        assert_eq!(error.to_string(), text);
    }
}

/// A type is meant to be four letters, but the errors that name one are exactly the cases
/// where it is not.
#[test]
fn chunk_types_are_escaped_as_the_standard_library_escapes() {
    for kind in [[0u8, 9, 10, 13], [34, 39, 92, 32], [126, 127, 128, 255], [31, 0x1b, 0xab, 65]] {
        let text = Error::BadChunkCrc { chunk: kind }.to_string();
        assert_eq!(text, format!("CRC mismatch in `{}` chunk", kind.escape_ascii()));
    }
}

#[test]
fn decompression_messages() {
    let cases = [
        (InflateError::BadZlibHeader, "invalid zlib header"),
        (InflateError::PresetDictionary, "zlib stream requires a preset dictionary"),
        (InflateError::UnexpectedEof, "compressed stream ended unexpectedly"),
        (InflateError::InvalidBlockType, "reserved deflate block type"),
        (
            InflateError::InvalidStoredLength,
            "stored block length does not match its complement",
        ),
        (InflateError::InvalidHlit, "too many literal/length codes"),
        (InflateError::InvalidHdist, "too many distance codes"),
        (InflateError::InvalidCodeLengthRepeat, "code length repeat out of range"),
        (InflateError::BadCodeLengthTree, "invalid code length huffman tree"),
        (InflateError::BadLiteralLengthTree, "invalid literal/length huffman tree"),
        (InflateError::BadDistanceTree, "invalid distance huffman tree"),
        (InflateError::InvalidLiteralLengthCode, "invalid literal/length code"),
        (InflateError::InvalidDistanceCode, "invalid distance code"),
        (
            InflateError::DistanceTooFarBack,
            "match distance points before the start of the output",
        ),
        (
            InflateError::OutputOverflow,
            "compressed stream expands to more data than expected",
        ),
        (
            InflateError::OutputUnderflow,
            "compressed stream expands to less data than expected",
        ),
        (InflateError::WrongChecksum, "adler-32 checksum mismatch"),
        (InflateError::OutOfMemory { bytes: 42 }, "could not allocate 42 bytes of output"),
    ];
    for (error, text) in cases {
        assert_eq!(error.to_string(), text);
    }
}
