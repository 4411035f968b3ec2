//! Errors produced when reading or writing PNG data.

use vstd::prelude::*;
use vstd::string::*;
use crate::inflate::InflateError;
use crate::text;
use crate::text::{push_kind, push_number};

verus! {

/// Why an image could not be read or written.
///
/// Non-exhaustive: a decoder discovers new ways for a file to be wrong as it hardens, and
/// naming one should not cost a major version. Match with a fallback arm.
#[non_exhaustive]
#[derive(Debug, Clone, PartialEq, Eq)]
pub enum Error {
    /// The data does not start with the eight-byte PNG signature.
    NotAPng,
    /// The file ended in the middle of a chunk, or behind image data without its end chunk.
    TruncatedChunk,
    /// A chunk's stored CRC does not match its contents.
    BadChunkCrc { chunk: [u8; 4] },
    /// The first chunk was not `IHDR`.
    MissingHeader,
    /// The file contained no `IDAT` chunk.
    MissingImageData,
    /// An indexed image had no `PLTE` chunk.
    MissingPalette,
    /// A chunk carried a length the format does not allow.
    InvalidChunkLength { chunk: [u8; 4], length: usize },
    /// A metadata chunk's type is not one the encoder is allowed to write.
    ///
    /// See [`Chunk::validate`](crate::common::Chunk::validate) for the rules.
    InvalidChunkType { chunk: [u8; 4] },
    /// A chunk marked critical was not one this decoder understands.
    ///
    /// A critical chunk may change how the image is to be interpreted, so ignoring one
    /// risks producing the wrong pixels rather than an error.
    UnknownCriticalChunk { chunk: [u8; 4] },
    /// `IHDR` declared a zero width or height.
    EmptyImage,
    /// The image is too large to address on this platform.
    ImageTooLarge,
    /// The image's decompressed size exceeds the decoder's limit.
    ///
    /// `IHDR` states how large an image expands to before any of it has been read, so a
    /// thirteen-byte header can ask for a buffer of any size the platform can address. See
    /// [`Decoder::max_decompressed_size`](crate::Decoder::max_decompressed_size).
    SizeLimitExceeded { size: usize, limit: usize },
    /// The allocator could not provide a buffer the image needs.
    OutOfMemory { bytes: usize },
    /// `IHDR` declared a colour type that is not one of the five PNG defines.
    InvalidColorType(u8),
    /// `IHDR` declared a bit depth that is not valid for its colour type.
    InvalidBitDepth { color_type: u8, bit_depth: u8 },
    /// `IHDR` declared a compression or filter method other than the single defined one.
    UnsupportedMethod { field: &'static str, value: u8 },
    /// `IHDR` declared an interlace method other than none or Adam7.
    InvalidInterlaceMethod(u8),
    /// A scanline used a filter byte outside `0..=4`.
    InvalidFilter { row: usize },
    /// A palette index referred past the end of `PLTE`.
    PaletteIndexOutOfRange,
    /// The compressed image data could not be decoded.
    Inflate(InflateError),
    /// The pixel buffer handed to the encoder is not the size the header describes.
    WrongBufferSize { expected: usize, found: usize },
}

impl From<InflateError> for Error {
    fn from(error: InflateError) -> (wrapped: Self) {
        Error::Inflate(error)
    }
}

impl vstd::std_specs::convert::FromSpecImpl<InflateError> for Error {
    open spec fn obeys_from_spec() -> bool {
        true
    }

    open spec fn from_spec(error: InflateError) -> Self {
        Error::Inflate(error)
    }
}

/// What a decompression error says.
pub open spec fn inflate_message(error: InflateError) -> Seq<char> {
    match error {
        InflateError::BadZlibHeader => "invalid zlib header"@,
        InflateError::PresetDictionary => "zlib stream requires a preset dictionary"@,
        InflateError::UnexpectedEof => "compressed stream ended unexpectedly"@,
        InflateError::InvalidBlockType => "reserved deflate block type"@,
        InflateError::InvalidStoredLength => "stored block length does not match its complement"@,
        InflateError::InvalidHlit => "too many literal/length codes"@,
        InflateError::InvalidHdist => "too many distance codes"@,
        InflateError::InvalidCodeLengthRepeat => "code length repeat out of range"@,
        InflateError::BadCodeLengthTree => "invalid code length huffman tree"@,
        InflateError::BadLiteralLengthTree => "invalid literal/length huffman tree"@,
        InflateError::BadDistanceTree => "invalid distance huffman tree"@,
        InflateError::InvalidLiteralLengthCode => "invalid literal/length code"@,
        InflateError::InvalidDistanceCode => "invalid distance code"@,
        InflateError::DistanceTooFarBack => "match distance points before the start of the output"@,
        InflateError::OutputOverflow => "compressed stream expands to more data than expected"@,
        InflateError::OutputUnderflow => "compressed stream expands to less data than expected"@,
        InflateError::WrongChecksum => "adler-32 checksum mismatch"@,
        InflateError::OutOfMemory { bytes } => "could not allocate "@ + text::decimal(bytes as nat)
            + " bytes of output"@,
    }
}

/// What an error says.
pub open spec fn message(error: Error) -> Seq<char> {
    match error {
        Error::NotAPng => "data does not begin with a PNG signature"@,
        Error::TruncatedChunk => "file ended in the middle of a chunk"@,
        Error::BadChunkCrc { chunk } => "CRC mismatch in `"@ + text::escaped_kind(chunk) + "` chunk"@,
        Error::MissingHeader => "file does not start with an IHDR chunk"@,
        Error::MissingImageData => "file contains no IDAT chunk"@,
        Error::MissingPalette => "indexed image has no PLTE chunk"@,
        Error::InvalidChunkLength { chunk, length } => "invalid length "@ + text::decimal(
            length as nat,
        ) + " for `"@ + text::escaped_kind(chunk) + "` chunk"@,
        Error::InvalidChunkType { chunk } => "`"@ + text::escaped_kind(chunk)
            + "` is not a writable ancillary chunk type"@,
        Error::UnknownCriticalChunk { chunk } => "unrecognised critical chunk `"@
            + text::escaped_kind(chunk) + "`"@,
        Error::EmptyImage => "image has zero width or height"@,
        Error::ImageTooLarge => "image dimensions exceed the addressable range"@,
        Error::SizeLimitExceeded { size, limit } => "image expands to "@ + text::decimal(size as nat)
            + " bytes, over the "@ + text::decimal(limit as nat) + " byte limit"@,
        Error::OutOfMemory { bytes } => "could not allocate "@ + text::decimal(bytes as nat)
            + " bytes for the image"@,
        Error::InvalidColorType(value) => "invalid colour type "@ + text::decimal(value as nat),
        Error::InvalidBitDepth { color_type, bit_depth } => "bit depth "@ + text::decimal(
            bit_depth as nat,
        ) + " is not valid for colour type "@ + text::decimal(color_type as nat),
        Error::UnsupportedMethod { field, value } => "unsupported "@ + field@ + " "@ + text::decimal(
            value as nat,
        ),
        Error::InvalidInterlaceMethod(value) => "invalid interlace method "@ + text::decimal(
            value as nat,
        ),
        Error::InvalidFilter { row } => "invalid filter byte on row "@ + text::decimal(row as nat),
        Error::PaletteIndexOutOfRange => "palette index out of range"@,
        Error::Inflate(error) => inflate_message(error),
        Error::WrongBufferSize { expected, found } => "expected "@ + text::decimal(expected as nat)
            + " bytes of pixel data, got "@ + text::decimal(found as nat),
    }
}

/// `before`, a number, `after`.
fn with_number(before: &str, n: usize, after: &str) -> (text: String)
    ensures
        text@ == before@ + text::decimal(n as nat) + after@,
{
    let mut text = String::from_str(before);
    push_number(&mut text, n);
    text.append(after);
    text
}

/// `before`, a chunk type, `after`.
fn with_kind(before: &str, kind: [u8; 4], after: &str) -> (text: String)
    ensures
        text@ == before@ + text::escaped_kind(kind) + after@,
{
    let mut text = String::from_str(before);
    push_kind(&mut text, kind);
    text.append(after);
    text
}

impl InflateError {
    /// What went wrong, in words.
    pub fn to_string(&self) -> (text: String)
        ensures
            text@ == inflate_message(*self),
    {
        let message: &str = match self {
            InflateError::BadZlibHeader => "invalid zlib header",
            InflateError::PresetDictionary => "zlib stream requires a preset dictionary",
            InflateError::UnexpectedEof => "compressed stream ended unexpectedly",
            InflateError::InvalidBlockType => "reserved deflate block type",
            InflateError::InvalidStoredLength => "stored block length does not match its complement",
            InflateError::InvalidHlit => "too many literal/length codes",
            InflateError::InvalidHdist => "too many distance codes",
            InflateError::InvalidCodeLengthRepeat => "code length repeat out of range",
            InflateError::BadCodeLengthTree => "invalid code length huffman tree",
            InflateError::BadLiteralLengthTree => "invalid literal/length huffman tree",
            InflateError::BadDistanceTree => "invalid distance huffman tree",
            InflateError::InvalidLiteralLengthCode => "invalid literal/length code",
            InflateError::InvalidDistanceCode => "invalid distance code",
            InflateError::DistanceTooFarBack => "match distance points before the start of the output",
            InflateError::OutputOverflow => "compressed stream expands to more data than expected",
            InflateError::OutputUnderflow => "compressed stream expands to less data than expected",
            InflateError::WrongChecksum => "adler-32 checksum mismatch",
            InflateError::OutOfMemory { bytes } => {
                return with_number("could not allocate ", *bytes, " bytes of output");
            },
        };
        String::from_str(message)
    }
}

impl Error {
    /// What went wrong, in words.
    pub fn to_string(&self) -> (text: String)
        ensures
            text@ == message(*self),
    {
        match self {
            Error::NotAPng => String::from_str("data does not begin with a PNG signature"),
            Error::TruncatedChunk => String::from_str("file ended in the middle of a chunk"),
            Error::BadChunkCrc { chunk } => with_kind("CRC mismatch in `", *chunk, "` chunk"),
            Error::MissingHeader => String::from_str("file does not start with an IHDR chunk"),
            Error::MissingImageData => String::from_str("file contains no IDAT chunk"),
            Error::MissingPalette => String::from_str("indexed image has no PLTE chunk"),
            Error::InvalidChunkLength { chunk, length } => {
                let mut text = with_number("invalid length ", *length, " for `");
                push_kind(&mut text, *chunk);
                text.append("` chunk");
                text
            },
            Error::InvalidChunkType { chunk } => with_kind(
                "`",
                *chunk,
                "` is not a writable ancillary chunk type",
            ),
            Error::UnknownCriticalChunk { chunk } => with_kind(
                "unrecognised critical chunk `",
                *chunk,
                "`",
            ),
            Error::EmptyImage => String::from_str("image has zero width or height"),
            Error::ImageTooLarge => String::from_str(
                "image dimensions exceed the addressable range",
            ),
            Error::SizeLimitExceeded { size, limit } => {
                let mut text = with_number("image expands to ", *size, " bytes, over the ");
                push_number(&mut text, *limit);
                text.append(" byte limit");
                text
            },
            Error::OutOfMemory { bytes } => with_number(
                "could not allocate ",
                *bytes,
                " bytes for the image",
            ),
            Error::InvalidColorType(value) => {
                let mut text = String::from_str("invalid colour type ");
                push_number(&mut text, *value as usize);
                text
            },
            Error::InvalidBitDepth { color_type, bit_depth } => {
                let mut text = with_number(
                    "bit depth ",
                    *bit_depth as usize,
                    " is not valid for colour type ",
                );
                push_number(&mut text, *color_type as usize);
                text
            },
            Error::UnsupportedMethod { field, value } => {
                let mut text = String::from_str("unsupported ");
                text.append(field);
                text.append(" ");
                push_number(&mut text, *value as usize);
                text
            },
            Error::InvalidInterlaceMethod(value) => {
                let mut text = String::from_str("invalid interlace method ");
                push_number(&mut text, *value as usize);
                text
            },
            Error::InvalidFilter { row } => {
                let mut text = String::from_str("invalid filter byte on row ");
                push_number(&mut text, *row);
                text
            },
            Error::PaletteIndexOutOfRange => String::from_str("palette index out of range"),
            Error::Inflate(error) => error.to_string(),
            Error::WrongBufferSize { expected, found } => {
                let mut text = with_number("expected ", *expected, " bytes of pixel data, got ");
                push_number(&mut text, *found);
                text
            },
        }
    }
}

} // verus!
