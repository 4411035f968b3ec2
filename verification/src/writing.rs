//! The bytes of the PNG file that an image is written as.

use vstd::prelude::*;
use crate::common;
use crate::common::{ChunkView, InfoView};
use crate::crc32;
use crate::encoder::FilterStrategy;
use crate::encoding;
use crate::error::Error;
use crate::file;
use crate::filter;
use crate::filter::Filter;
use crate::selection;

verus! {

/// Bytes of filtered scanline the encoder works on at a time.
///
/// Matched to the compressor's own block, so an ordinary image's band is one block and the
/// per-block Huffman code is fitted to as much data as it would have been. A band is always a
/// whole number of rows, since the filter is chosen per row, so a single row wider than this
/// makes a larger band rather than a partial one.
///
/// Working in bands is also why the encoder needs no second image-sized buffer: a band is
/// still in cache when the compressor reads it back.
pub const BAND_TARGET_BYTES: usize = 262_144;

/// Largest `IDAT` payload written at once.
///
/// A chunk states its length before its data, so this much compressed output has to be held
/// before any of it can be written. Splitting the image data across several `IDAT` chunks is
/// ordinary PNG, and every decoder joins them back together.
pub const IDAT_CHUNK_BYTES: usize = 65_536;

/// A chunk in a file: length, type, payload, checksum.
pub open spec fn chunk_bytes(kind: [u8; 4], data: Seq<u8>) -> Seq<u8> {
    encoding::be_bytes(data.len()) + kind@ + data + encoding::be_bytes(
        crc32::checksum(kind@ + data) as nat,
    )
}

/// The payload of `IHDR`. Images are always written sequentially.
pub open spec fn ihdr_payload(info: InfoView) -> Seq<u8> {
    encoding::be_bytes(info.width as nat) + encoding::be_bytes(info.height as nat) + seq![
        common::depth_bits(info.bit_depth),
        common::color_byte(info.color_type),
        0u8,
        0u8,
        0u8,
    ]
}

/// Whether the format requires a chunk of this type to appear before `PLTE`: `cHRM`, `gAMA`,
/// `iCCP`, `sBIT`, `sRGB`, `cICP`, `mDCv` and `cLLi`. Every other ancillary type is either
/// required after `PLTE`, like `bKGD` and `hIST`, or unconstrained.
pub open spec fn before_palette(kind: [u8; 4]) -> bool {
    ||| kind == [0x63u8, 0x48u8, 0x52u8, 0x4du8]
    ||| kind == [0x67u8, 0x41u8, 0x4du8, 0x41u8]
    ||| kind == [0x69u8, 0x43u8, 0x43u8, 0x50u8]
    ||| kind == [0x73u8, 0x42u8, 0x49u8, 0x54u8]
    ||| kind == [0x73u8, 0x52u8, 0x47u8, 0x42u8]
    ||| kind == [0x63u8, 0x49u8, 0x43u8, 0x50u8]
    ||| kind == [0x6du8, 0x44u8, 0x43u8, 0x76u8]
    ||| kind == [0x63u8, 0x4cu8, 0x4cu8, 0x69u8]
}

/// The chunks of a list that go before the palette, or those that go behind it, in order.
pub open spec fn side(chunks: Seq<ChunkView>, before: bool) -> Seq<ChunkView>
    decreases chunks.len(),
{
    if chunks.len() == 0 {
        Seq::empty()
    } else if before_palette(chunks.last().kind) == before {
        side(chunks.drop_last(), before).push(chunks.last())
    } else {
        side(chunks.drop_last(), before)
    }
}

/// Chunks one after the other.
pub open spec fn chunks_bytes(chunks: Seq<ChunkView>) -> Seq<u8>
    decreases chunks.len(),
{
    if chunks.len() == 0 {
        Seq::empty()
    } else {
        chunks_bytes(chunks.drop_last()) + chunk_bytes(chunks.last().kind, chunks.last().data)
    }
}

/// A chunk that is written if there is something to put in it.
pub open spec fn optional_chunk(kind: [u8; 4], data: Option<Seq<u8>>) -> Seq<u8> {
    match data {
        Some(bytes) => chunk_bytes(kind, bytes),
        None => Seq::empty(),
    }
}

/// The signature and every chunk in front of the image data.
pub open spec fn leading_bytes(info: InfoView) -> Seq<u8> {
    common::SIGNATURE@ + chunk_bytes(common::IHDR, ihdr_payload(info)) + chunks_bytes(
        side(info.metadata, true),
    ) + optional_chunk(common::PLTE, info.palette) + optional_chunk(
        common::TRNS,
        info.transparency,
    ) + chunks_bytes(side(info.metadata, false))
}

/// Row `y` of an image.
pub open spec fn image_row(info: InfoView, data: Seq<u8>, y: int) -> Seq<u8> {
    file::row_at(data, y, info.row_bytes())
}

/// The row above row `y`: zeros above the first one.
pub open spec fn image_row_above(info: InfoView, data: Seq<u8>, y: int) -> Seq<u8> {
    if y <= 0 {
        common::zeros(info.row_bytes() as nat)
    } else {
        image_row(info, data, y - 1)
    }
}

/// The filter of row `y`, which depends on the filters of the rows before it.
pub open spec fn row_filter(info: InfoView, data: Seq<u8>, strategy: FilterStrategy, y: int) -> Filter
    decreases y,
{
    selection::chosen_filter(
        strategy,
        info.stride() as nat,
        image_row_above(info, data, y),
        image_row(info, data, y),
        if y <= 0 {
            Filter::Raw
        } else {
            row_filter(info, data, strategy, y - 1)
        },
    )
}

/// The filter byte of row `y` and the row with that filter applied.
pub open spec fn record(info: InfoView, data: Seq<u8>, strategy: FilterStrategy, y: int) -> Seq<u8> {
    let choice = row_filter(info, data, strategy, y);
    seq![filter::filter_byte(choice)] + filter::filtered(
        choice,
        info.stride() as nat,
        image_row_above(info, data, y),
        image_row(info, data, y),
    )
}

/// The filtered rows `first` to `past`.
pub open spec fn records(
    info: InfoView,
    data: Seq<u8>,
    strategy: FilterStrategy,
    first: int,
    past: int,
) -> Seq<u8>
    decreases past - first,
{
    if past <= first {
        Seq::empty()
    } else {
        records(info, data, strategy, first, past - 1) + record(info, data, strategy, past - 1)
    }
}

/// How many rows a band has: as many as the target allows, and at least one.
pub open spec fn band_rows(info: InfoView) -> int {
    let rows = BAND_TARGET_BYTES as int / (1 + info.row_bytes());
    if rows < 1 {
        1
    } else {
        rows
    }
}

/// How many bands an image has.
pub open spec fn band_count(info: InfoView) -> int {
    (info.height + band_rows(info) - 1) / band_rows(info)
}

/// The first row of band `n`, or the end of the image.
pub open spec fn band_start(info: InfoView, n: int) -> int {
    if n * band_rows(info) < info.height {
        n * band_rows(info)
    } else {
        info.height as int
    }
}

/// The bands of an image, filtered.
pub open spec fn bands(info: InfoView, data: Seq<u8>, strategy: FilterStrategy) -> Seq<Seq<u8>> {
    Seq::new(
        band_count(info) as nat,
        |n: int|
            records(info, data, strategy, band_start(info, n), band_start(info, n + 1)),
    )
}

/// The first `n` full `IDAT` chunks of compressed data.
pub open spec fn full_chunks(packed: Seq<u8>, n: int) -> Seq<u8>
    decreases n,
{
    if n <= 0 {
        Seq::empty()
    } else {
        full_chunks(packed, n - 1) + chunk_bytes(
            common::IDAT,
            packed.subrange((n - 1) * IDAT_CHUNK_BYTES, n * IDAT_CHUNK_BYTES),
        )
    }
}

/// Compressed data in `IDAT` chunks: full ones, and one for what is left over.
pub open spec fn idat_bytes(packed: Seq<u8>) -> Seq<u8> {
    let n = packed.len() as int / IDAT_CHUNK_BYTES as int;
    let rest = packed.skip(n * IDAT_CHUNK_BYTES);
    if rest.len() == 0 {
        full_chunks(packed, n)
    } else {
        full_chunks(packed, n) + chunk_bytes(common::IDAT, rest)
    }
}

/// A whole file.
pub open spec fn file_bytes(info: InfoView, data: Seq<u8>, strategy: FilterStrategy) -> Seq<u8> {
    leading_bytes(info) + idat_bytes(encoding::zlib_of_pieces(bands(info, data, strategy)))
        + chunk_bytes(common::IEND, Seq::empty())
}

/// The compressed data once the first `n` bands, but not all of them, were compressed.
pub open spec fn packed_after(
    info: InfoView,
    data: Seq<u8>,
    strategy: FilterStrategy,
    n: nat,
) -> Seq<u8> {
    encoding::so_far(encoding::after_pieces(bands(info, data, strategy), n))
}

/// The first `n` parts of a file. The first part is everything in front of the image data.
/// Each further part is the full `IDAT` chunks that one more band completes, and the last one
/// brings the rest of the file.
pub open spec fn parts_bytes(
    info: InfoView,
    data: Seq<u8>,
    strategy: FilterStrategy,
    n: nat,
) -> Seq<u8> {
    if n == 0 {
        Seq::empty()
    } else if n > band_count(info) {
        file_bytes(info, data, strategy)
    } else {
        let packed = packed_after(info, data, strategy, (n - 1) as nat);
        leading_bytes(info) + full_chunks(packed, packed.len() as int / IDAT_CHUNK_BYTES as int)
    }
}

/// Whether every chunk of a list can be written, or why the first that cannot be is refused.
pub open spec fn chunks_checked(chunks: Seq<ChunkView>) -> Result<(), Error>
    decreases chunks.len(),
{
    if chunks.len() == 0 {
        Ok(())
    } else {
        match chunks_checked(chunks.drop_last()) {
            Err(error) => Err(error),
            Ok(_) => chunks.last().checked(),
        }
    }
}

/// Whether an image can be written, or why it is refused.
pub open spec fn writable(info: InfoView, data: Seq<u8>) -> Result<(), Error> {
    match info.checked() {
        Err(error) => Err(error),
        Ok(_) => if data.len() != info.output_size() {
            Err(
                Error::WrongBufferSize {
                    expected: info.output_size() as usize,
                    found: data.len() as usize,
                },
            )
        } else if file::lacks_palette(info) {
            Err(Error::MissingPalette)
        } else if info.palette is Some && !file::palette_length(info.palette->0.len() as int) {
            Err(
                Error::InvalidChunkLength {
                    chunk: common::PLTE,
                    length: info.palette->0.len() as usize,
                },
            )
        } else {
            match (if info.transparency is Some {
                file::transparency_suits(info.color_type, info.transparency->0.len() as int)
            } else {
                Ok(())
            }) {
                Err(error) => Err(error),
                Ok(_) => chunks_checked(info.metadata),
            }
        },
    }
}

/// The file that an image is written as, or why it is refused.
pub open spec fn encoded(info: InfoView, data: Seq<u8>, strategy: FilterStrategy) -> Result<
    Seq<u8>,
    Error,
> {
    match writable(info, data) {
        Err(error) => Err(error),
        Ok(_) => Ok(file_bytes(info, data, strategy)),
    }
}

} // verus!
