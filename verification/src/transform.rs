//! Conversion from a PNG's native pixel layout to the eight-bit formats callers usually
//! want.
//!
//! Decoding leaves pixels exactly as the file stores them, because that is the only form
//! that is always correct and always free. These conversions are separate so that a caller
//! who already handles the native layout never pays for them.

use vstd::prelude::*;
use vstd::arithmetic::mul::*;
use crate::common;
use crate::common::{BitDepth, ColorType, InfoView};
use crate::decoder::Image;
use crate::error::Error;
use crate::file;
use crate::interlace;

verus! {

/// Two bytes as a number, most significant byte first.
pub open spec fn be16_at(data: Seq<u8>, at: int) -> u16 {
    (256 * data[at] + data[at + 1]) as u16
}

/// The `x`-th sample of a row stored at `bits` bits per sample.
pub open spec fn sample_of(row: Seq<u8>, x: int, bits: int) -> u16 {
    if bits == 16 {
        be16_at(row, x * 2)
    } else if bits == 8 {
        row[x] as u16
    } else {
        file::slot(row[x * bits / 8], bits as u8, (x * bits % 8) as u8) as u16
    }
}

/// A grey level scaled to a byte: the largest level becomes 255, and of sixteen bits the upper
/// eight stay.
pub open spec fn scaled(value: u16, bits: int) -> u8 {
    if bits == 1 {
        (value * 255) as u8
    } else if bits == 2 {
        (value * 85) as u8
    } else if bits == 4 {
        (value * 17) as u8
    } else if bits == 16 {
        (value / 256) as u8
    } else {
        value as u8
    }
}

/// The grey level that `tRNS` makes transparent.
pub open spec fn grey_key(transparency: Option<Seq<u8>>) -> Option<u16> {
    match transparency {
        Some(bytes) => if bytes.len() >= 2 {
            Some(be16_at(bytes, 0))
        } else {
            None
        },
        None => None,
    }
}

/// The colour that `tRNS` makes transparent.
pub open spec fn rgb_key(transparency: Option<Seq<u8>>) -> Option<(u16, u16, u16)> {
    match transparency {
        Some(bytes) => if bytes.len() >= 6 {
            Some((be16_at(bytes, 0), be16_at(bytes, 2), be16_at(bytes, 4)))
        } else {
            None
        },
        None => None,
    }
}

/// The alpha that `tRNS` gives a palette entry. Entries past its end are opaque.
pub open spec fn entry_alpha(transparency: Option<Seq<u8>>, index: int) -> u8 {
    match transparency {
        Some(bytes) => if index < bytes.len() {
            bytes[index]
        } else {
            255
        },
        None => 255,
    }
}

pub open spec fn opacity(transparent: bool) -> u8 {
    if transparent {
        0
    } else {
        255
    }
}

/// The bytes of one sample of eight or sixteen bits.
pub open spec fn sample_bytes(depth: BitDepth) -> int {
    if depth is Sixteen {
        2
    } else {
        1
    }
}

/// A sample of eight or sixteen bits that begins at `at`.
pub open spec fn wide_sample(row: Seq<u8>, at: int, depth: BitDepth) -> u16 {
    if depth is Sixteen {
        be16_at(row, at)
    } else {
        row[at] as u16
    }
}

/// Red, green, blue and alpha of the pixel `x` of a row, one byte each.
pub open spec fn rgba_of(info: InfoView, row: Seq<u8>, x: int) -> Seq<u8> {
    let bits = common::depth_bits(info.bit_depth) as int;
    let step = sample_bytes(info.bit_depth);
    match info.color_type {
        ColorType::Grayscale => {
            let raw = sample_of(row, x, bits);
            let grey = scaled(raw, bits);
            seq![grey, grey, grey, opacity(grey_key(info.transparency) == Some(raw))]
        },
        ColorType::GrayscaleAlpha => {
            let at = x * (2 * step);
            seq![row[at], row[at], row[at], row[at + step]]
        },
        ColorType::Rgb => {
            let at = x * (3 * step);
            let raw = (
                wide_sample(row, at, info.bit_depth),
                wide_sample(row, at + step, info.bit_depth),
                wide_sample(row, at + 2 * step, info.bit_depth),
            );
            seq![
                row[at],
                row[at + step],
                row[at + 2 * step],
                opacity(rgb_key(info.transparency) == Some(raw)),
            ]
        },
        ColorType::Rgba => {
            let at = x * (4 * step);
            seq![row[at], row[at + step], row[at + 2 * step], row[at + 3 * step]]
        },
        ColorType::Indexed => {
            let index = sample_of(row, x, bits) as int;
            let palette = info.palette->0;
            seq![
                palette[3 * index],
                palette[3 * index + 1],
                palette[3 * index + 2],
                entry_alpha(info.transparency, index),
            ]
        },
    }
}

/// Whether the palette has an entry for the pixel `x` of a row.
pub open spec fn entry_exists(info: InfoView, row: Seq<u8>, x: int) -> bool {
    3 * sample_of(row, x, common::depth_bits(info.bit_depth) as int) + 3 <= info.palette->0.len()
}

/// The first `n` pixels of a row, `channels` bytes each.
pub open spec fn row_pixels(info: InfoView, row: Seq<u8>, channels: int, n: nat) -> Seq<u8>
    decreases n,
{
    if n == 0 {
        Seq::empty()
    } else {
        row_pixels(info, row, channels, (n - 1) as nat) + rgba_of(info, row, n - 1).take(channels)
    }
}

/// The first `n` rows of an image, `channels` bytes per pixel.
pub open spec fn image_pixels(info: InfoView, data: Seq<u8>, channels: int, n: nat) -> Seq<u8>
    decreases n,
{
    if n == 0 {
        Seq::empty()
    } else {
        image_pixels(info, data, channels, (n - 1) as nat) + row_pixels(
            info,
            file::row_at(data, n - 1, info.row_bytes()),
            channels,
            info.width as nat,
        )
    }
}

/// Whether every pixel of an indexed image has a palette entry.
pub open spec fn entries_exist(info: InfoView, data: Seq<u8>) -> bool {
    forall|x: int, y: int|
        0 <= x < info.width && 0 <= y < info.height ==> #[trigger] entry_exists(
            info,
            file::row_at(data, y, info.row_bytes()),
            x,
        )
}

/// An image with `channels` bytes per pixel: red, green, blue, and alpha where there are four.
pub open spec fn converted(image: file::ImageView, channels: int) -> Result<Seq<u8>, Error> {
    if image.info.color_type is Indexed && image.info.palette is None {
        Err(Error::MissingPalette)
    } else if image.info.color_type is Indexed && !entries_exist(image.info, image.data) {
        Err(Error::PaletteIndexOutOfRange)
    } else {
        Ok(image_pixels(image.info, image.data, channels, image.info.height as nat))
    }
}

/// Whether an image can be converted: the result can be addressed, the layout is one that the
/// format allows, and the data is all there. An indexed image without a palette is refused
/// before its layout or data is looked at, and an image without pixels has no use for either.
pub open spec fn convertible(image: file::ImageView, channels: int) -> bool {
    let info = image.info;
    &&& info.width * info.height * channels <= isize::MAX
    &&& file::lacks_palette(info) || {
        &&& info.output_size() <= image.data.len()
        &&& {
            ||| common::depth_allowed(info.color_type, info.bit_depth)
            ||| info.height == 0
            ||| info.width == 0 && info.color_type !is Indexed
        }
    }
}

/// An image without columns has no pixels.
proof fn lemma_no_columns(info: InfoView, data: Seq<u8>, channels: int, n: nat)
    requires
        info.width == 0,
    ensures
        image_pixels(info, data, channels, n) == Seq::<u8>::empty(),
    decreases n,
{
    if n > 0 {
        lemma_no_columns(info, data, channels, (n - 1) as nat);
        assert(image_pixels(info, data, channels, n) =~= Seq::<u8>::empty());
    }
}

// ---------------------------------------------------------------------------------------
// Rows
// ---------------------------------------------------------------------------------------

fn be16(data: &[u8], offset: usize) -> (value: u16)
    requires
        offset + 1 < data@.len(),
    ensures
        value == be16_at(data@, offset as int),
{
    data[offset] as u16 * 256 + data[offset + 1] as u16
}

/// A row that holds `width` pixels of `bits` bits.
spec fn holds_row(row: Seq<u8>, width: int, bits: int) -> bool {
    row.len() == common::row_len(width, bits)
}

/// Reads the `x`-th sample of a row stored at `bits` bits per sample.
fn sample(row: &[u8], x: usize, bits: usize, Ghost(width): Ghost<int>) -> (value: u16)
    requires
        bits == 1 || bits == 2 || bits == 4 || bits == 8 || bits == 16,
        x < width,
        holds_row(row@, width, bits as int),
    ensures
        value == sample_of(row@, x as int, bits as int),
        bits < 16 ==> value < 256,
        bits == 1 ==> value < 2,
        bits == 2 ==> value < 4,
        bits == 4 ==> value < 16,
{
    let len: usize = row.len();
    if bits == 8 {
        proof {
            lemma_pixel_inside(row@, x as int, width, 1);
        }
        row[x] as u16
    } else if bits == 16 {
        proof {
            lemma_pixel_inside(row@, x as int, width, 2);
        }
        be16(row, x * 2)
    } else {
        let per: usize = if bits == 1 {
            8
        } else if bits == 2 {
            4
        } else {
            2
        };
        proof {
            interlace::lemma_cells(width, bits as int);
            interlace::lemma_cell(x as int, bits as int, len as int);
            interlace::lemma_slot_range(
                row@[x as int / per as int],
                bits as u8,
                (x % per * bits) as u8,
            );
        }
        let small: u8 = bits as u8;
        let at: u8 = (x % per * bits) as u8;
        let mask: u8 = (1u8 << small) - 1;
        ((row[x / per] >> (8 - small - at)) & mask) as u16
    }
}

/// Scales a sample to the full eight-bit range.
///
/// The multiplier is chosen so the maximum value maps to 255 exactly: a one-bit sample
/// becomes 0 or 255, a four-bit sample repeats its nibble, and so on.
fn scale_to_byte(value: u16, bits: usize) -> (byte: u8)
    requires
        bits == 1 || bits == 2 || bits == 4 || bits == 8 || bits == 16,
        bits == 8 ==> value < 256,
        bits == 1 ==> value < 2,
        bits == 2 ==> value < 4,
        bits == 4 ==> value < 16,
    ensures
        byte == scaled(value, bits as int),
{
    if bits == 1 {
        value as u8 * 255
    } else if bits == 2 {
        value as u8 * 85
    } else if bits == 4 {
        value as u8 * 17
    } else if bits == 16 {
        (value / 256) as u8
    } else {
        value as u8
    }
}

/// Appends one pixel.
fn push_pixel<const CHANNELS: usize>(output: &mut Vec<u8>, rgba: [u8; 4])
    requires
        CHANNELS == 3 || CHANNELS == 4,
    ensures
        final(output)@ == old(output)@ + rgba@.take(CHANNELS as int),
{
    output.push(rgba[0]);
    output.push(rgba[1]);
    output.push(rgba[2]);
    if CHANNELS == 4 {
        output.push(rgba[3]);
    }
    assert(output@ =~= old(output)@ + rgba@.take(CHANNELS as int));
}

/// Grey levels, scaled to the full byte range, with `tRNS` matched against the raw sample.
fn grey_row<const CHANNELS: usize>(
    row: &[u8],
    width: usize,
    bits: usize,
    key: Option<u16>,
    output: &mut Vec<u8>,
    Ghost(info): Ghost<InfoView>,
)
    requires
        CHANNELS == 3 || CHANNELS == 4,
        info.color_type is Grayscale,
        bits == common::depth_bits(info.bit_depth),
        key == grey_key(info.transparency),
        holds_row(row@, width as int, info.bits()),
    ensures
        final(output)@ == old(output)@ + row_pixels(info, row@, CHANNELS as int, width as nat),
{
    assert(output@ =~= old(output)@ + row_pixels(info, row@, CHANNELS as int, 0));
    for x in 0..width
        invariant
            CHANNELS == 3 || CHANNELS == 4,
            info.color_type is Grayscale,
            bits == common::depth_bits(info.bit_depth),
            key == grey_key(info.transparency),
            holds_row(row@, width as int, info.bits()),
            output@ == old(output)@ + row_pixels(info, row@, CHANNELS as int, x as nat),
    {
        let raw: u16 = sample(row, x, bits, Ghost(width as int));
        let grey: u8 = scale_to_byte(raw, bits);
        let transparent: bool = match key {
            Some(level) => level == raw,
            None => false,
        };
        let alpha: u8 = if transparent {
            0
        } else {
            255
        };
        let rgba: [u8; 4] = [grey, grey, grey, alpha];
        assert(rgba@ =~= rgba_of(info, row@, x as int));
        push_pixel::<CHANNELS>(output, rgba);
        assert(output@ =~= old(output)@ + row_pixels(info, row@, CHANNELS as int, (x + 1) as nat));
    }
}

/// A pixel of whole bytes lies inside its row.
proof fn lemma_pixel_inside(row: Seq<u8>, x: int, width: int, bytes: int)
    requires
        1 <= bytes <= 8,
        0 <= x < width,
        holds_row(row, width, 8 * bytes),
    ensures
        0 <= x * bytes,
        x * bytes + bytes <= row.len(),
        row.len() == width * bytes,
{
    interlace::lemma_cells(width, 8 * bytes);
    lemma_mul_nonnegative(x, bytes);
    lemma_mul_inequality(x + 1, width, bytes);
    lemma_mul_is_distributive_add_other_way(bytes, x, 1);
}

/// Grey plus alpha. `tRNS` does not apply: the alpha channel is already explicit.
fn grey_alpha_row<const CHANNELS: usize>(
    row: &[u8],
    width: usize,
    wide: bool,
    output: &mut Vec<u8>,
    Ghost(info): Ghost<InfoView>,
)
    requires
        CHANNELS == 3 || CHANNELS == 4,
        info.color_type is GrayscaleAlpha,
        wide == (info.bit_depth is Sixteen),
        common::depth_allowed(info.color_type, info.bit_depth),
        holds_row(row@, width as int, info.bits()),
    ensures
        final(output)@ == old(output)@ + row_pixels(info, row@, CHANNELS as int, width as nat),
{
    let step: usize = if wide {
        2
    } else {
        1
    };
    let len: usize = row.len();
    assert(info.bits() == 8 * (2 * step));
    assert(output@ =~= old(output)@ + row_pixels(info, row@, CHANNELS as int, 0));
    for x in 0..width
        invariant
            CHANNELS == 3 || CHANNELS == 4,
            info.color_type is GrayscaleAlpha,
            step == sample_bytes(info.bit_depth),
            step == 1 || step == 2,
            len == row@.len(),
            holds_row(row@, width as int, 8 * (2 * step)),
            output@ == old(output)@ + row_pixels(info, row@, CHANNELS as int, x as nat),
    {
        proof {
            lemma_pixel_inside(row@, x as int, width as int, 2 * step as int);
        }
        let base: usize = x * (2 * step);
        let rgba: [u8; 4] = [row[base], row[base], row[base], row[base + step]];
        assert(rgba@ =~= rgba_of(info, row@, x as int));
        push_pixel::<CHANNELS>(output, rgba);
        assert(output@ =~= old(output)@ + row_pixels(info, row@, CHANNELS as int, (x + 1) as nat));
    }
}

/// A row that already holds the bytes asked for.
proof fn lemma_same_bytes(info: InfoView, row: Seq<u8>, channels: int, width: int, n: nat)
    requires
        channels == 3 && info.color_type is Rgb || channels == 4 && info.color_type is Rgba,
        info.bit_depth is Eight,
        n <= width,
        holds_row(row, width, 8 * channels),
    ensures
        n * channels <= row.len(),
        row_pixels(info, row, channels, n) == row.take(n * channels),
    decreases n,
{
    if n > 0 {
        lemma_same_bytes(info, row, channels, width, (n - 1) as nat);
        lemma_pixel_inside(row, n - 1, width, channels);
        assert(n * channels == (n - 1) * channels + channels) by (nonlinear_arith);
        assert(row_pixels(info, row, channels, n) =~= row.take(n * channels));
    } else {
        assert(n * channels == 0) by (nonlinear_arith)
            requires
                n == 0,
        ;
        assert(row_pixels(info, row, channels, n) =~= row.take(n * channels));
    }
}

/// Appends a row that already holds the bytes asked for.
fn copy_row<const CHANNELS: usize>(
    row: &[u8],
    width: usize,
    output: &mut Vec<u8>,
    Ghost(info): Ghost<InfoView>,
)
    requires
        CHANNELS == 3 && info.color_type is Rgb || CHANNELS == 4 && info.color_type is Rgba,
        info.bit_depth is Eight,
        holds_row(row@, width as int, 8 * CHANNELS),
    ensures
        final(output)@ == old(output)@ + row_pixels(info, row@, CHANNELS as int, width as nat),
{
    proof {
        interlace::lemma_cells(width as int, 8 * CHANNELS);
        lemma_same_bytes(info, row@, CHANNELS as int, width as int, width as nat);
        assert(row@.take(width * CHANNELS) =~= row@);
    }
    output.extend_from_slice(row);
}

fn rgb_row<const CHANNELS: usize>(
    row: &[u8],
    width: usize,
    wide: bool,
    key: Option<(u16, u16, u16)>,
    output: &mut Vec<u8>,
    Ghost(info): Ghost<InfoView>,
)
    requires
        CHANNELS == 3 || CHANNELS == 4,
        info.color_type is Rgb,
        wide == (info.bit_depth is Sixteen),
        common::depth_allowed(info.color_type, info.bit_depth),
        key == rgb_key(info.transparency),
        holds_row(row@, width as int, info.bits()),
    ensures
        final(output)@ == old(output)@ + row_pixels(info, row@, CHANNELS as int, width as nat),
{
    // Eight-bit RGB asked for as RGB, with no `tRNS` to test, is the same bytes in the same
    // order.
    if CHANNELS == 3 && !wide && key.is_none() {
        copy_row::<CHANNELS>(row, width, output, Ghost(info));
        return ;
    }
    let step: usize = if wide {
        2
    } else {
        1
    };
    let len: usize = row.len();
    assert(info.bits() == 8 * (3 * step));
    assert(output@ =~= old(output)@ + row_pixels(info, row@, CHANNELS as int, 0));
    for x in 0..width
        invariant
            CHANNELS == 3 || CHANNELS == 4,
            info.color_type is Rgb,
            step == sample_bytes(info.bit_depth),
            wide == (info.bit_depth is Sixteen),
            key == rgb_key(info.transparency),
            step == 1 || step == 2,
            len == row@.len(),
            holds_row(row@, width as int, 8 * (3 * step)),
            output@ == old(output)@ + row_pixels(info, row@, CHANNELS as int, x as nat),
    {
        proof {
            lemma_pixel_inside(row@, x as int, width as int, 3 * step as int);
        }
        let base: usize = x * (3 * step);
        let r: u8 = row[base];
        let g: u8 = row[base + step];
        let b: u8 = row[base + 2 * step];
        // `tRNS` names a colour at the file's own depth, so a 16-bit image is compared at
        // 16 bits: two colours can differ there and still truncate to the same byte.
        let alpha: u8 = match key {
            Some((red, green, blue)) => {
                let same: bool = if wide {
                    be16(row, base) == red && be16(row, base + 2) == green && be16(row, base + 4)
                        == blue
                } else {
                    r as u16 == red && g as u16 == green && b as u16 == blue
                };
                if same {
                    0
                } else {
                    255
                }
            },
            None => 255,
        };
        let rgba: [u8; 4] = [r, g, b, alpha];
        assert(rgba@ =~= rgba_of(info, row@, x as int));
        push_pixel::<CHANNELS>(output, rgba);
        assert(output@ =~= old(output)@ + row_pixels(info, row@, CHANNELS as int, (x + 1) as nat));
    }
}

fn rgba_row<const CHANNELS: usize>(
    row: &[u8],
    width: usize,
    wide: bool,
    output: &mut Vec<u8>,
    Ghost(info): Ghost<InfoView>,
)
    requires
        CHANNELS == 3 || CHANNELS == 4,
        info.color_type is Rgba,
        wide == (info.bit_depth is Sixteen),
        common::depth_allowed(info.color_type, info.bit_depth),
        holds_row(row@, width as int, info.bits()),
    ensures
        final(output)@ == old(output)@ + row_pixels(info, row@, CHANNELS as int, width as nat),
{
    // Eight-bit RGBA asked for as RGBA needs no conversion at all.
    if CHANNELS == 4 && !wide {
        copy_row::<CHANNELS>(row, width, output, Ghost(info));
        return ;
    }
    let step: usize = if wide {
        2
    } else {
        1
    };
    let len: usize = row.len();
    assert(info.bits() == 8 * (4 * step));
    assert(output@ =~= old(output)@ + row_pixels(info, row@, CHANNELS as int, 0));
    for x in 0..width
        invariant
            CHANNELS == 3 || CHANNELS == 4,
            info.color_type is Rgba,
            step == sample_bytes(info.bit_depth),
            step == 1 || step == 2,
            len == row@.len(),
            holds_row(row@, width as int, 8 * (4 * step)),
            output@ == old(output)@ + row_pixels(info, row@, CHANNELS as int, x as nat),
    {
        proof {
            lemma_pixel_inside(row@, x as int, width as int, 4 * step as int);
        }
        let base: usize = x * (4 * step);
        let rgba: [u8; 4] = [
            row[base],
            row[base + step],
            row[base + 2 * step],
            row[base + 3 * step],
        ];
        assert(rgba@ =~= rgba_of(info, row@, x as int));
        push_pixel::<CHANNELS>(output, rgba);
        assert(output@ =~= old(output)@ + row_pixels(info, row@, CHANNELS as int, (x + 1) as nat));
    }
}

fn indexed_row<const CHANNELS: usize>(
    row: &[u8],
    width: usize,
    bits: usize,
    palette: &Vec<u8>,
    transparency: &Option<Vec<u8>>,
    output: &mut Vec<u8>,
    Ghost(info): Ghost<InfoView>,
) -> (result: Result<(), Error>)
    requires
        CHANNELS == 3 || CHANNELS == 4,
        info.color_type is Indexed,
        common::depth_allowed(info.color_type, info.bit_depth),
        bits == common::depth_bits(info.bit_depth),
        info.palette == Some(palette@),
        info.transparency == common::optional(*transparency),
        holds_row(row@, width as int, info.bits()),
    ensures
        match result {
            Ok(()) => {
                &&& forall|x: int| 0 <= x < width ==> #[trigger] entry_exists(info, row@, x)
                &&& final(output)@ == old(output)@ + row_pixels(
                    info,
                    row@,
                    CHANNELS as int,
                    width as nat,
                )
            },
            Err(error) => {
                &&& error is PaletteIndexOutOfRange
                &&& exists|x: int| 0 <= x < width && !#[trigger] entry_exists(info, row@, x)
            },
        },
{
    assert(output@ =~= old(output)@ + row_pixels(info, row@, CHANNELS as int, 0));
    for x in 0..width
        invariant
            CHANNELS == 3 || CHANNELS == 4,
            info.color_type is Indexed,
            info.bit_depth !is Sixteen,
            bits == common::depth_bits(info.bit_depth),
            info.palette == Some(palette@),
            info.transparency == common::optional(*transparency),
            holds_row(row@, width as int, info.bits()),
            forall|k: int| 0 <= k < x ==> #[trigger] entry_exists(info, row@, k),
            output@ == old(output)@ + row_pixels(info, row@, CHANNELS as int, x as nat),
    {
        let index: usize = sample(row, x, bits, Ghost(width as int)) as usize;
        let entry: usize = index * 3;
        if palette.len() < entry + 3 {
            assert(!entry_exists(info, row@, x as int));
            return Err(Error::PaletteIndexOutOfRange);
        }
        assert(entry_exists(info, row@, x as int));
        // A `tRNS` shorter than the palette leaves the entries past its end opaque.
        let alpha: u8 = match transparency {
            Some(bytes) => if index < bytes.len() {
                bytes[index]
            } else {
                255
            },
            None => 255,
        };
        let rgba: [u8; 4] = [palette[entry], palette[entry + 1], palette[entry + 2], alpha];
        assert(rgba@ =~= rgba_of(info, row@, x as int));
        push_pixel::<CHANNELS>(output, rgba);
        assert(output@ =~= old(output)@ + row_pixels(info, row@, CHANNELS as int, (x + 1) as nat));
    }
    Ok(())
}

// ---------------------------------------------------------------------------------------
// Images
// ---------------------------------------------------------------------------------------

impl Image {
    /// Converts to tightly packed 8-bit RGBA.
    ///
    /// Sub-byte grey levels are scaled to the full range, 16-bit samples are truncated to
    /// their high byte, palette indices are resolved, and `tRNS` becomes real alpha. Fully
    /// opaque images get an alpha of 255.
    pub fn to_rgba8(&self) -> (result: Result<Vec<u8>, Error>)
        requires
            convertible(self@, 4),
        ensures
            match result {
                Ok(bytes) => converted(self@, 4) == Ok::<Seq<u8>, Error>(bytes@),
                Err(error) => converted(self@, 4) == Err::<Seq<u8>, Error>(error),
            },
    {
        self.expand::<4>()
    }

    /// Converts to tightly packed 8-bit RGB, discarding any alpha.
    pub fn to_rgb8(&self) -> (result: Result<Vec<u8>, Error>)
        requires
            convertible(self@, 3),
        ensures
            match result {
                Ok(bytes) => converted(self@, 3) == Ok::<Seq<u8>, Error>(bytes@),
                Err(error) => converted(self@, 3) == Err::<Seq<u8>, Error>(error),
            },
    {
        self.expand::<3>()
    }

    fn expand<const CHANNELS: usize>(&self) -> (result: Result<Vec<u8>, Error>)
        requires
            CHANNELS == 3 || CHANNELS == 4,
            convertible(self@, CHANNELS as int),
        ensures
            match result {
                Ok(bytes) => converted(self@, CHANNELS as int) == Ok::<Seq<u8>, Error>(bytes@),
                Err(error) => converted(self@, CHANNELS as int) == Err::<Seq<u8>, Error>(error),
            },
    {
        if self.info.color_type == ColorType::Indexed && self.info.palette.is_none() {
            return Err(Error::MissingPalette);
        }
        let height: usize = self.info.height as usize;
        let size: usize = self.data.len();
        let mut output: Vec<u8> = Vec::new();
        let ghost view = self@.info;
        if height == 0 || self.info.width == 0 {
            proof {
                if view.width == 0 {
                    lemma_no_columns(view, self.data@, CHANNELS as int, view.height as nat);
                }
            }
            return Ok(output);
        }
        proof {
            common::lemma_bits(view);
            assert(view.row_bytes() <= view.output_size()) by (nonlinear_arith)
                requires
                    view.output_size() == view.row_bytes() * view.height,
                    view.height >= 1,
                    view.row_bytes() >= 0,
            ;
        }
        let row_bytes: usize = self.info.row_bytes();
        for y in 0..height
            invariant
                CHANNELS == 3 || CHANNELS == 4,
                view == self@.info,
                common::depth_allowed(view.color_type, view.bit_depth),
                view.color_type is Indexed ==> view.palette is Some,
                size == self.data@.len(),
                view.output_size() <= size,
                row_bytes == view.row_bytes(),
                height == view.height,
                output@ == image_pixels(view, self.data@, CHANNELS as int, y as nat),
                view.color_type is Indexed ==> forall|i: int, j: int|
                    0 <= i < view.width && 0 <= j < y ==> #[trigger] entry_exists(
                        view,
                        file::row_at(self.data@, j, view.row_bytes()),
                        i,
                    ),
        {
            proof {
                interlace::lemma_row_place(y as int, height as int, row_bytes as int);
            }
            let at: usize = y * row_bytes;
            let row: &[u8] = &self.data.as_slice()[at..at + row_bytes];
            assert(row@ == file::row_at(self.data@, y as int, view.row_bytes()));
            match self.expand_row::<CHANNELS>(row, &mut output) {
                Ok(()) => {},
                Err(error) => {
                    proof {
                        let x = choose|x: int|
                            0 <= x < view.width && !#[trigger] entry_exists(view, row@, x);
                        assert(!entry_exists(
                            view,
                            file::row_at(self.data@, y as int, view.row_bytes()),
                            x,
                        ));
                    }
                    return Err(error);
                },
            }
        }
        Ok(output)
    }

    /// Appends one row.
    ///
    /// Colour type and bit depth belong to the file, not to the pixel, so they are resolved
    /// once per row.
    fn expand_row<const CHANNELS: usize>(&self, row: &[u8], output: &mut Vec<u8>) -> (result: Result<
        (),
        Error,
    >)
        requires
            CHANNELS == 3 || CHANNELS == 4,
            common::depth_allowed(self@.info.color_type, self@.info.bit_depth),
            self@.info.color_type is Indexed ==> self@.info.palette is Some,
            row@.len() == self@.info.row_bytes(),
        ensures
            match result {
                Ok(()) => {
                    &&& self@.info.color_type is Indexed ==> forall|x: int|
                        0 <= x < self@.info.width ==> #[trigger] entry_exists(self@.info, row@, x)
                    &&& final(output)@ == old(output)@ + row_pixels(
                        self@.info,
                        row@,
                        CHANNELS as int,
                        self@.info.width as nat,
                    )
                },
                Err(error) => {
                    &&& error is PaletteIndexOutOfRange
                    &&& self@.info.color_type is Indexed
                    &&& exists|x: int|
                        0 <= x < self@.info.width && !#[trigger] entry_exists(self@.info, row@, x)
                },
            },
    {
        let ghost view = self@.info;
        let width: usize = self.info.width as usize;
        let bits: usize = self.info.bit_depth.bits();
        let wide: bool = match self.info.bit_depth {
            BitDepth::Sixteen => true,
            _ => false,
        };
        match self.info.color_type {
            ColorType::Grayscale => {
                let key: Option<u16> = self.grey_key();
                grey_row::<CHANNELS>(row, width, bits, key, output, Ghost(view));
                Ok(())
            },
            ColorType::GrayscaleAlpha => {
                grey_alpha_row::<CHANNELS>(row, width, wide, output, Ghost(view));
                Ok(())
            },
            ColorType::Rgb => {
                let key: Option<(u16, u16, u16)> = self.rgb_key();
                rgb_row::<CHANNELS>(row, width, wide, key, output, Ghost(view));
                Ok(())
            },
            ColorType::Rgba => {
                rgba_row::<CHANNELS>(row, width, wide, output, Ghost(view));
                Ok(())
            },
            ColorType::Indexed => match &self.info.palette {
                Some(palette) => indexed_row::<CHANNELS>(
                    row,
                    width,
                    bits,
                    palette,
                    &self.info.transparency,
                    output,
                    Ghost(view),
                ),
                None => Ok(()),
            },
        }
    }

    fn grey_key(&self) -> (key: Option<u16>)
        ensures
            key == grey_key(self@.info.transparency),
    {
        match &self.info.transparency {
            Some(bytes) => if bytes.len() >= 2 {
                Some(be16(bytes.as_slice(), 0))
            } else {
                None
            },
            None => None,
        }
    }

    fn rgb_key(&self) -> (key: Option<(u16, u16, u16)>)
        ensures
            key == rgb_key(self@.info.transparency),
    {
        match &self.info.transparency {
            Some(bytes) => if bytes.len() >= 6 {
                let bytes: &[u8] = bytes.as_slice();
                Some((be16(bytes, 0), be16(bytes, 2), be16(bytes, 4)))
            } else {
                None
            },
            None => None,
        }
    }
}

} // verus!
