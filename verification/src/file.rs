//! What the bytes of a PNG file mean.

use vstd::prelude::*;
use vstd::arithmetic::mul::*;
use crate::common;
use crate::common::{ChunkView, ColorType, InfoView, Interlacing};
use crate::crc32;
use crate::decoder::{Checks, Keep};
use crate::error::Error;
use crate::filter;
use crate::stream;

verus! {

// ---------------------------------------------------------------------------------------
// Chunks
// ---------------------------------------------------------------------------------------

/// The four bytes at a place, as a chunk type.
pub open spec fn kind_at(png: Seq<u8>, at: int) -> [u8; 4] {
    [png[at], png[at + 1], png[at + 2], png[at + 3]]
}

/// A chunk found in a file, and the place behind it.
pub struct Found {
    pub kind: [u8; 4],
    pub data: Seq<u8>,
    pub end: int,
}

/// The next chunk at `p` that passes its checksum, if the file does not end there.
///
/// A wrong checksum is an error on a critical chunk. An ancillary chunk is skipped instead.
pub open spec fn next_chunk(png: Seq<u8>, p: int, verify: bool) -> Result<Option<Found>, Error>
    decreases png.len() - p,
{
    if p >= png.len() {
        Ok(None)
    } else if p + 8 > png.len() {
        Err(Error::TruncatedChunk)
    } else {
        let length = stream::be32(png, p) as int;
        let kind = kind_at(png, p + 4);
        let end = p + 12 + length;
        if length > common::MAX_CHUNK_BYTES || end > png.len() {
            Err(Error::TruncatedChunk)
        } else if verify && crc32::checksum(png.subrange(p + 4, end - 4)) != stream::be32(
            png,
            end - 4,
        ) {
            if common::critical(kind) {
                Err(Error::BadChunkCrc { chunk: kind })
            } else {
                next_chunk(png, end, verify)
            }
        } else {
            Ok(Some(Found { kind, data: png.subrange(p + 8, end - 4), end }))
        }
    }
}

/// A chunk that is found ends further on, inside the file.
pub proof fn lemma_next_chunk(png: Seq<u8>, p: int, verify: bool)
    ensures
        next_chunk(png, p, verify) matches Ok(Some(found)) ==> p + 12 <= found.end <= png.len(),
    decreases png.len() - p,
{
    if p < png.len() && p + 8 <= png.len() {
        let end = p + 12 + stream::be32(png, p);
        if end <= png.len() {
            lemma_next_chunk(png, end, verify);
        }
    }
}

// ---------------------------------------------------------------------------------------
// The header
// ---------------------------------------------------------------------------------------

/// What an `IHDR` payload says.
pub open spec fn header(data: Seq<u8>) -> Result<InfoView, Error> {
    if data.len() != 13 {
        Err(Error::InvalidChunkLength { chunk: common::IHDR, length: data.len() as usize })
    } else {
        match common::depth_of(data[8]) {
            None => Err(Error::InvalidBitDepth { color_type: data[9], bit_depth: data[8] }),
            Some(bit_depth) => match common::color_of(data[9]) {
                None => Err(Error::InvalidColorType(data[9])),
                Some(color_type) => if data[10] != 0 {
                    Err(Error::UnsupportedMethod { field: "compression method", value: data[10] })
                } else if data[11] != 0 {
                    Err(Error::UnsupportedMethod { field: "filter method", value: data[11] })
                } else if data[12] > 1 {
                    Err(Error::InvalidInterlaceMethod(data[12]))
                } else {
                    let info = InfoView {
                        interlacing: if data[12] == 0 {
                            Interlacing::Sequential
                        } else {
                            Interlacing::Adam7
                        },
                        ..common::plain_info(
                            stream::be32(data, 0) as u32,
                            stream::be32(data, 4) as u32,
                            color_type,
                            bit_depth,
                        )
                    };
                    match info.checked() {
                        Err(error) => Err(error),
                        Ok(_) => Ok(info),
                    }
                },
            },
        }
    }
}

/// Whether a file begins with the signature.
pub open spec fn signed(png: Seq<u8>) -> bool {
    png.len() >= 8 && png.take(8) == common::SIGNATURE@
}

/// What the signature and `IHDR` of a file say, and the place behind them.
pub open spec fn opened(png: Seq<u8>, verify: bool) -> Result<(InfoView, int), Error> {
    if !signed(png) {
        Err(Error::NotAPng)
    } else {
        match next_chunk(png, 8, verify) {
            Err(error) => Err(error),
            Ok(None) => Err(Error::MissingHeader),
            Ok(Some(found)) => if found.kind != common::IHDR {
                Err(Error::MissingHeader)
            } else {
                match header(found.data) {
                    Err(error) => Err(error),
                    Ok(info) => Ok((info, found.end)),
                }
            },
        }
    }
}

// ---------------------------------------------------------------------------------------
// The chunks between the header and the end
// ---------------------------------------------------------------------------------------

/// Whether a transparency of `length` bytes suits a colour type, or why it does not.
pub open spec fn transparency_suits(color_type: ColorType, length: int) -> Result<(), Error> {
    let suits = match color_type {
        ColorType::Grayscale => length == 2,
        ColorType::Rgb => length == 6,
        ColorType::Indexed => length <= 256,
        _ => false,
    };
    if suits {
        Ok(())
    } else {
        Err(Error::InvalidChunkLength { chunk: common::TRNS, length: length as usize })
    }
}

/// Whether a palette of `length` bytes is made of at most 256 triples.
pub open spec fn palette_length(length: int) -> bool {
    length <= 768 && length % 3 == 0
}

/// Whether an ancillary chunk was asked for.
pub open spec fn wanted(keep: Keep, kind: [u8; 4]) -> bool {
    match keep {
        Keep::Nothing => false,
        Keep::Only(kinds) => kinds@.contains(kind),
        Keep::All => true,
    }
}

/// The description with one chunk that is neither `IDAT` nor `IEND` added to it.
///
/// A palette or a transparency behind the image data changes nothing.
pub open spec fn absorbed(
    info: InfoView,
    kind: [u8; 4],
    data: Seq<u8>,
    keep: Keep,
    before_idat: bool,
) -> Result<InfoView, Error> {
    if kind == common::PLTE {
        if !palette_length(data.len() as int) {
            Err(Error::InvalidChunkLength { chunk: kind, length: data.len() as usize })
        } else if before_idat {
            Ok(InfoView { palette: Some(data), ..info })
        } else {
            Ok(info)
        }
    } else if kind == common::TRNS {
        if before_idat {
            match transparency_suits(info.color_type, data.len() as int) {
                Err(error) => Err(error),
                Ok(_) => Ok(InfoView { transparency: Some(data), ..info }),
            }
        } else {
            Ok(info)
        }
    } else if common::critical(kind) {
        Err(Error::UnknownCriticalChunk { chunk: kind })
    } else if wanted(keep, kind) && common::writable(kind) {
        Ok(InfoView { metadata: info.metadata.push(ChunkView { kind, data }), ..info })
    } else {
        Ok(info)
    }
}

/// What has been read of a file so far: its description, and its image data once that began.
pub struct Contents {
    pub info: InfoView,
    pub idat: Option<Seq<u8>>,
}

/// `contents` with the payload of one more `IDAT` behind the image data.
pub open spec fn with_idat(contents: Contents, data: Seq<u8>) -> Contents {
    Contents {
        idat: match contents.idat {
            None => Some(data),
            Some(so_far) => Some(so_far + data),
        },
        ..contents
    }
}

/// Everything a file says from `p` to its `IEND`.
///
/// A file that stops behind image data, before its `IEND`, was cut short. One that stops
/// before any image data says what it says, and what is missing is the image data.
pub open spec fn contents_from(
    png: Seq<u8>,
    p: int,
    verify: bool,
    keep: Keep,
    contents: Contents,
) -> Result<Contents, Error>
    decreases png.len() - p,
{
    proof {
        lemma_next_chunk(png, p, verify);
    }
    match next_chunk(png, p, verify) {
        Err(error) => Err(error),
        Ok(None) => if contents.idat is Some {
            Err(Error::TruncatedChunk)
        } else {
            Ok(contents)
        },
        Ok(Some(found)) => if found.kind == common::IEND {
            Ok(contents)
        } else if found.kind == common::IDAT {
            contents_from(png, found.end, verify, keep, with_idat(contents, found.data))
        } else {
            match absorbed(contents.info, found.kind, found.data, keep, contents.idat is None) {
                Err(error) => Err(error),
                Ok(info) => contents_from(
                    png,
                    found.end,
                    verify,
                    keep,
                    Contents { info, ..contents },
                ),
            }
        },
    }
}

/// What a file says from `p` to its first `IDAT`.
pub open spec fn header_from(png: Seq<u8>, p: int, verify: bool, keep: Keep, info: InfoView) -> Result<
    InfoView,
    Error,
>
    decreases png.len() - p,
{
    proof {
        lemma_next_chunk(png, p, verify);
    }
    match next_chunk(png, p, verify) {
        Err(error) => Err(error),
        Ok(None) => Err(Error::MissingImageData),
        Ok(Some(found)) => if found.kind == common::IEND {
            Err(Error::MissingImageData)
        } else if found.kind == common::IDAT {
            if lacks_palette(info) {
                Err(Error::MissingPalette)
            } else {
                Ok(info)
            }
        } else {
            match absorbed(info, found.kind, found.data, keep, true) {
                Err(error) => Err(error),
                Ok(grown) => header_from(png, found.end, verify, keep, grown),
            }
        },
    }
}

/// Whether an indexed image has no palette.
pub open spec fn lacks_palette(info: InfoView) -> bool {
    info.color_type is Indexed && info.palette is None
}

/// Whether chunk checksums are verified.
pub open spec fn verifies(checks: Checks) -> bool {
    checks !is Nothing
}

/// What a file says ahead of its image data.
pub open spec fn described(png: Seq<u8>, checks: Checks, keep: Keep) -> Result<InfoView, Error> {
    match opened(png, verifies(checks)) {
        Err(error) => Err(error),
        Ok((info, p)) => header_from(png, p, verifies(checks), keep, info),
    }
}

/// What a decoder is set to do.
pub struct Settings {
    pub checks: Checks,
    pub keep: Keep,
    pub limit: Option<usize>,
}

/// Whether an image expands to no more than a limit.
pub open spec fn within(size: int, limit: Option<usize>) -> bool {
    limit matches Some(most) ==> size <= most
}

/// Everything a file says, and its compressed image data.
pub open spec fn parsed(png: Seq<u8>, settings: Settings) -> Result<(InfoView, Seq<u8>), Error> {
    let verify = verifies(settings.checks);
    match opened(png, verify) {
        Err(error) => Err(error),
        Ok((info, p)) => if info.decompressed_size() > usize::MAX {
            Err(Error::ImageTooLarge)
        } else if !within(info.decompressed_size(), settings.limit) {
            Err(
                Error::SizeLimitExceeded {
                    size: info.decompressed_size() as usize,
                    limit: settings.limit->0,
                },
            )
        } else {
            match contents_from(png, p, verify, settings.keep, Contents { info, idat: None }) {
                Err(error) => Err(error),
                Ok(contents) => if lacks_palette(contents.info) {
                    Err(Error::MissingPalette)
                } else {
                    match contents.idat {
                        None => Err(Error::MissingImageData),
                        Some(data) => if contents.info.addressable() {
                            Ok((contents.info, data))
                        } else {
                            Err(Error::ImageTooLarge)
                        },
                    }
                },
            }
        },
    }
}

// ---------------------------------------------------------------------------------------
// Pixels
// ---------------------------------------------------------------------------------------

/// The bits of a byte that hold the sample `at` bits from its left.
pub open spec fn slot(byte: u8, bits: u8, at: u8) -> u8 {
    (byte >> ((8 - bits - at) as u8)) & (((1u8 << bits) - 1) as u8)
}

/// A byte with the sample `at` bits from its left replaced.
pub open spec fn with_slot(byte: u8, bits: u8, at: u8, value: u8) -> u8 {
    (byte & !((((1u8 << bits) - 1) as u8) << ((8 - bits - at) as u8))) | (value << ((8 - bits
        - at) as u8))
}

/// The bytes of the pixel `x` of a row, or for a packed row its bits as one byte.
pub open spec fn pixel_at(row: Seq<u8>, x: int, bits: int) -> Seq<u8> {
    if bits < 8 {
        seq![slot(row[x * bits / 8], bits as u8, (x * bits % 8) as u8)]
    } else {
        row.subrange(x * (bits / 8), (x + 1) * (bits / 8))
    }
}

/// Row `y` of an image whose rows take `row_bytes` bytes.
pub open spec fn row_at(image: Seq<u8>, y: int, row_bytes: int) -> Seq<u8> {
    image.subrange(y * row_bytes, (y + 1) * row_bytes)
}

/// The Adam7 pass that carries the pixel at column `x` and row `y`.
pub open spec fn pass_of(x: int, y: int) -> int {
    if y % 2 == 1 {
        6
    } else if x % 2 == 1 {
        5
    } else if y % 4 == 2 {
        4
    } else if x % 4 == 2 {
        3
    } else if y % 8 == 4 {
        2
    } else if x % 8 == 4 {
        1
    } else {
        0
    }
}

/// The pixel of an image at column `x` and row `y`, taken from the pass that carries it.
pub open spec fn source_pixel(info: InfoView, passes: Seq<Seq<u8>>, x: int, y: int) -> Seq<u8> {
    let pass = pass_of(x, y);
    let (x_start, y_start, x_step, y_step) = common::ADAM7_PASSES[pass];
    let width = common::pass_width(pass, info.width as int);
    pixel_at(
        row_at(
            passes[pass],
            (y - y_start) / y_step as int,
            common::row_len(width, info.bits()),
        ),
        (x - x_start) / x_step as int,
        info.bits(),
    )
}

/// A byte of row `y` that packs pixels, with the first `n` of them filled in. Bits behind the
/// last pixel of the row are zero.
pub open spec fn packed_byte(
    info: InfoView,
    passes: Seq<Seq<u8>>,
    first: int,
    y: int,
    n: nat,
) -> u8
    decreases n,
{
    if n == 0 {
        0
    } else {
        let before = packed_byte(info, passes, first, y, (n - 1) as nat);
        let x = first + n - 1;
        if x < info.width {
            with_slot(
                before,
                info.bits() as u8,
                ((n - 1) * info.bits()) as u8,
                source_pixel(info, passes, x, y)[0],
            )
        } else {
            before
        }
    }
}

/// The byte `i` of an image that came in seven passes.
pub open spec fn woven_byte(info: InfoView, passes: Seq<Seq<u8>>, i: int) -> u8 {
    let y = i / info.row_bytes();
    let j = i % info.row_bytes();
    if info.bits() < 8 {
        packed_byte(info, passes, j * (8int / info.bits()), y, (8int / info.bits()) as nat)
    } else {
        let pixel = info.bits() / 8;
        source_pixel(info, passes, j / pixel, y)[j % pixel]
    }
}

/// An image that came in seven passes.
pub open spec fn woven(info: InfoView, passes: Seq<Seq<u8>>) -> Seq<u8> {
    Seq::new(info.output_size() as nat, |i: int| woven_byte(info, passes, i))
}

/// The scanlines in the first `n` passes.
pub open spec fn rows_before(info: InfoView, n: int) -> int
    decreases n,
{
    if n <= 0 {
        0
    } else if common::pass_len(info.width as int, info.height as int, info.bits(), n - 1) == 0 {
        rows_before(info, n - 1)
    } else {
        rows_before(info, n - 1) + common::pass_height(n - 1, info.height as int)
    }
}

/// The rows of one pass, its filters reversed.
pub open spec fn unfiltered_pass(info: InfoView, raw: Seq<u8>, pass: int) -> Result<Seq<u8>, int> {
    let (w, h, b) = (info.width as int, info.height as int, info.bits());
    let at = common::passes_len(w, h, b, pass);
    let length = common::pass_len(w, h, b, pass);
    if length == 0 {
        Ok(Seq::empty())
    } else {
        filter::unfiltered_rows(
            raw.subrange(at, at + length),
            common::row_len(common::pass_width(pass, w), b) as nat,
            info.stride() as nat,
            common::pass_height(pass, h) as nat,
        )
    }
}

/// The first `n` passes with their filters reversed, or the first scanline, counted over all
/// passes, whose type byte names no filter.
pub open spec fn unfiltered_passes(info: InfoView, raw: Seq<u8>, n: int) -> Result<
    Seq<Seq<u8>>,
    int,
>
    decreases n,
{
    if n <= 0 {
        Ok(Seq::empty())
    } else {
        match unfiltered_passes(info, raw, n - 1) {
            Err(row) => Err(row),
            Ok(passes) => match unfiltered_pass(info, raw, n - 1) {
                Err(row) => Err(rows_before(info, n - 1) + row),
                Ok(image) => Ok(passes.push(image)),
            },
        }
    }
}

/// The pixels in the expanded image data.
pub open spec fn pixels(info: InfoView, raw: Seq<u8>) -> Result<Seq<u8>, Error> {
    let result = match info.interlacing {
        Interlacing::Sequential => filter::unfiltered_rows(
            raw,
            info.row_bytes() as nat,
            info.stride() as nat,
            info.height as nat,
        ),
        Interlacing::Adam7 => match unfiltered_passes(info, raw, 7) {
            Err(row) => Err(row),
            Ok(passes) => Ok(woven(info, passes)),
        },
    };
    match result {
        Err(row) => Err(Error::InvalidFilter { row: row as usize }),
        Ok(data) => Ok(data),
    }
}

/// The palette index of the pixel at column `x` and row `y`.
pub open spec fn index_at(info: InfoView, data: Seq<u8>, x: int, y: int) -> u8 {
    pixel_at(row_at(data, y, info.row_bytes()), x, info.bits())[0]
}

/// Whether every pixel of an indexed image has a palette entry.
pub open spec fn indices_fit(info: InfoView, data: Seq<u8>, entries: int) -> bool {
    forall|x: int, y: int|
        0 <= x < info.width && 0 <= y < info.height ==> #[trigger] index_at(info, data, x, y)
            < entries
}

/// Whether the pixels of an indexed image are covered by its palette, or why they are not.
pub open spec fn palette_covers(info: InfoView, data: Seq<u8>) -> Result<(), Error> {
    if info.color_type !is Indexed {
        Ok(())
    } else if info.palette is None || info.palette->0.len() / 3 == 0 {
        Err(Error::MissingPalette)
    } else if !indices_fit(info, data, (info.palette->0.len() / 3) as int) {
        Err(Error::PaletteIndexOutOfRange)
    } else {
        Ok(())
    }
}

/// An image as plain values.
#[verifier::ext_equal]
pub struct ImageView {
    pub info: InfoView,
    pub data: Seq<u8>,
}

/// The expanded image data of a file.
pub open spec fn expanded(info: InfoView, idat: Seq<u8>, checks: Checks) -> Result<Seq<u8>, Error> {
    match stream::zlib_exact(idat, info.decompressed_size() as nat, checks is Full) {
        Err(error) => Err(Error::Inflate(error)),
        Ok(raw) => Ok(raw),
    }
}

/// The image in a file, or why there is none.
pub open spec fn decoded(png: Seq<u8>, settings: Settings) -> Result<ImageView, Error> {
    match parsed(png, settings) {
        Err(error) => Err(error),
        Ok((info, idat)) => match expanded(info, idat, settings.checks) {
            Err(error) => Err(error),
            Ok(raw) => match pixels(info, raw) {
                Err(error) => Err(error),
                Ok(data) => match palette_covers(info, data) {
                    Err(error) => Err(error),
                    Ok(_) => Ok(ImageView { info, data }),
                },
            },
        },
    }
}

/// A file that does not parse fails for a reason in the file.
pub proof fn lemma_parse_errors(png: Seq<u8>, settings: Settings)
    ensures
        parsed(png, settings) matches Err(error) ==> error !is OutOfMemory,
{
    let verify = verifies(settings.checks);
    lemma_chunk_errors(png, 8, verify);
    if let Ok((info, p)) = opened(png, verify) {
        lemma_contents_errors(
            png,
            p,
            verify,
            settings.keep,
            Contents { info, idat: None },
        );
    }
}

proof fn lemma_chunk_errors(png: Seq<u8>, p: int, verify: bool)
    ensures
        next_chunk(png, p, verify) matches Err(error) ==> error !is OutOfMemory,
    decreases png.len() - p,
{
    if p < png.len() && p + 8 <= png.len() {
        let end = p + 12 + stream::be32(png, p);
        if end <= png.len() {
            lemma_chunk_errors(png, end, verify);
        }
    }
}

proof fn lemma_contents_errors(
    png: Seq<u8>,
    p: int,
    verify: bool,
    keep: Keep,
    contents: Contents,
)
    ensures
        contents_from(png, p, verify, keep, contents) matches Err(error) ==> error !is OutOfMemory,
    decreases png.len() - p,
{
    lemma_chunk_errors(png, p, verify);
    lemma_next_chunk(png, p, verify);
    if let Ok(Some(found)) = next_chunk(png, p, verify) {
        if found.kind == common::IDAT {
            lemma_contents_errors(png, found.end, verify, keep, with_idat(contents, found.data));
        } else if found.kind != common::IEND {
            if let Ok(info) = absorbed(
                contents.info,
                found.kind,
                found.data,
                keep,
                contents.idat is None,
            ) {
                lemma_contents_errors(
                    png,
                    found.end,
                    verify,
                    keep,
                    Contents { info, ..contents },
                );
            }
        }
    }
}

/// The pixels of an image fill it.
pub proof fn lemma_pixels_len(info: InfoView, raw: Seq<u8>)
    requires
        info.checked() is Ok,
        raw.len() == info.decompressed_size(),
    ensures
        pixels(info, raw) matches Ok(data) ==> data.len() == info.output_size(),
{
    common::lemma_sizes(info);
    if info.interlacing is Sequential {
        lemma_mul_is_commutative(info.height as int, 1 + info.row_bytes());
        lemma_mul_is_commutative(info.height as int, info.row_bytes());
        filter::lemma_unfiltered_rows_len(
            raw,
            info.row_bytes() as nat,
            info.stride() as nat,
            info.height as nat,
        );
    }
}

} // verus!
