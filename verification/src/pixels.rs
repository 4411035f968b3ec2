//! Pixels that are written in a common layout, and what interlacing changes about it.

use vstd::prelude::*;
use vstd::arithmetic::mul::*;
use crate::common;
use crate::common::{BitDepth, ColorType, InfoView, Interlacing};
use crate::decoder;
use crate::decoder::DEFAULT_MAX_DECOMPRESSED_SIZE;
use crate::encoder::FilterStrategy;
use crate::error::Error;
use crate::file;
use crate::interlace;
use crate::laws;
use crate::transform;
use crate::writing;

verus! {

// ---------------------------------------------------------------------------------------
// Interlacing
// ---------------------------------------------------------------------------------------

/// The description of the same image, sequential.
pub open spec fn sequential(info: InfoView) -> InfoView {
    InfoView { interlacing: Interlacing::Sequential, ..info }
}

proof fn lemma_same_filter(info: InfoView, data: Seq<u8>, strategy: FilterStrategy, y: int)
    ensures
        writing::row_filter(sequential(info), data, strategy, y) == writing::row_filter(
            info,
            data,
            strategy,
            y,
        ),
    decreases y,
{
    if y > 0 {
        lemma_same_filter(info, data, strategy, y - 1);
    }
}

proof fn lemma_same_records(
    info: InfoView,
    data: Seq<u8>,
    strategy: FilterStrategy,
    first: int,
    past: int,
)
    ensures
        writing::records(sequential(info), data, strategy, first, past) == writing::records(
            info,
            data,
            strategy,
            first,
            past,
        ),
    decreases past - first,
{
    if first < past {
        lemma_same_records(info, data, strategy, first, past - 1);
        lemma_same_filter(info, data, strategy, past - 1);
    }
}

/// Whether an image is described as interlaced makes no difference to the file it is written
/// as, nor to whether it is written.
pub proof fn law_interlacing_is_not_written(
    info: InfoView,
    data: Seq<u8>,
    strategy: FilterStrategy,
)
    ensures
        writing::encoded(info, data, strategy) == writing::encoded(
            sequential(info),
            data,
            strategy,
        ),
{
    let other = sequential(info);
    assert(writing::bands(info, data, strategy) =~= writing::bands(other, data, strategy)) by {
        assert forall|n: int| 0 <= n < writing::band_count(info) implies writing::records(
            info,
            data,
            strategy,
            #[trigger] writing::band_start(info, n),
            writing::band_start(info, n + 1),
        ) == writing::records(
            other,
            data,
            strategy,
            writing::band_start(info, n),
            writing::band_start(info, n + 1),
        ) by {
            lemma_same_records(
                info,
                data,
                strategy,
                writing::band_start(info, n),
                writing::band_start(info, n + 1),
            );
        }
    }
}

// ---------------------------------------------------------------------------------------
// RGB and RGBA
// ---------------------------------------------------------------------------------------

/// The layout with three or four bytes per pixel.
spec fn color_for(channels: int) -> ColorType {
    if channels == 4 {
        ColorType::Rgba
    } else {
        ColorType::Rgb
    }
}

proof fn lemma_row_kept(info: InfoView, row: Seq<u8>, channels: int, n: nat)
    requires
        channels == 3 || channels == 4,
        info.color_type == color_for(channels),
        info.bit_depth is Eight,
        n * channels <= row.len(),
    ensures
        transform::row_pixels(info, row, channels, n) == row.take(n * channels),
    decreases n,
{
    if n > 0 {
        lemma_row_kept(info, row, channels, (n - 1) as nat);
        assert(transform::rgba_of(info, row, n - 1).take(channels) =~= row.subrange(
            (n - 1) * channels,
            n * channels,
        ));
    }
    assert(transform::row_pixels(info, row, channels, n) =~= row.take(n * channels));
}

proof fn lemma_image_kept(info: InfoView, data: Seq<u8>, channels: int, n: nat)
    requires
        channels == 3 || channels == 4,
        info.color_type == color_for(channels),
        info.bit_depth is Eight,
        info.row_bytes() == info.width * channels,
        n * info.row_bytes() <= data.len(),
    ensures
        transform::image_pixels(info, data, channels, n) == data.take(n * info.row_bytes()),
    decreases n,
{
    let r = info.row_bytes();
    if n > 0 {
        interlace::lemma_row_place(n - 1, n as int, r);
        lemma_image_kept(info, data, channels, (n - 1) as nat);
        let row = file::row_at(data, n - 1, r);
        lemma_row_kept(info, row, channels, info.width as nat);
        assert(row.take(info.width * channels) =~= row);
        assert(n * r == (n - 1) * r + r) by (nonlinear_arith);
    } else {
        assert(0 * r == 0) by (nonlinear_arith);
    }
    assert(transform::image_pixels(info, data, channels, n) =~= data.take(n * r));
}

/// The sizes of an image with three or four bytes per pixel.
proof fn lemma_plain_sizes(width: u32, height: u32, channels: int)
    requires
        channels == 3 || channels == 4,
        width >= 1,
        height >= 1,
        height * (1 + channels * width) <= DEFAULT_MAX_DECOMPRESSED_SIZE,
    ensures
        ({
            let info = common::plain_info(width, height, color_for(channels), BitDepth::Eight);
            &&& info.checked() is Ok
            &&& info.row_bytes() == width * channels
            &&& info.output_size() == channels * width * height
            &&& info.sequential_size() == height * (1 + channels * width)
            &&& channels * width * height <= usize::MAX
        }),
{
    let info = common::plain_info(width, height, color_for(channels), BitDepth::Eight);
    let (w, h) = (width as int, height as int);
    let b = info.bits();
    assert(b == 8 * channels);
    assert(w * b == 8 * (channels * w)) by (nonlinear_arith)
        requires
            b == 8 * channels,
    ;
    assert(w * h * b == 8 * (channels * w * h)) by (nonlinear_arith)
        requires
            b == 8 * channels,
    ;
    assert(channels * w == w * channels) by (nonlinear_arith);
    assert(h * (1 + channels * w) == h + channels * w * h) by (nonlinear_arith);
    assert((channels * w) * h == channels * w * h);
    assert((1 + channels * w) * h == h * (1 + channels * w)) by (nonlinear_arith);
    assert(channels * w * h >= 0) by (nonlinear_arith)
        requires
            channels >= 3,
            w >= 1,
            h >= 1,
    ;
}

proof fn lemma_pixels_come_back(width: u32, height: u32, data: Seq<u8>, channels: int)
    requires
        channels == 3 || channels == 4,
        width >= 1,
        height >= 1,
        height * (1 + channels * width) <= DEFAULT_MAX_DECOMPRESSED_SIZE,
    ensures
        ({
            let info = common::plain_info(width, height, color_for(channels), BitDepth::Eight);
            let file = writing::encoded(info, data, FilterStrategy::Sampled);
            if data.len() == channels * width * height {
                &&& file is Ok
                &&& file::decoded(file->Ok_0, decoder::default_settings()) matches Ok(image)
                &&& transform::converted(image, channels) == Ok::<Seq<u8>, Error>(data)
            } else {
                file == Err::<Seq<u8>, Error>(
                    Error::WrongBufferSize {
                        expected: (channels * width * height) as usize,
                        found: data.len() as usize,
                    },
                )
            }
        }),
{
    let info = common::plain_info(width, height, color_for(channels), BitDepth::Eight);
    lemma_plain_sizes(width, height, channels);
    if data.len() == channels * width * height {
        let settings = decoder::default_settings();
        laws::law_file_reads_back(info, data, FilterStrategy::Sampled, settings);
        let view = laws::read_back(info, settings.keep);
        assert(view.row_bytes() == info.row_bytes());
        let r = info.row_bytes();
        lemma_mul_is_commutative(r, height as int);
        lemma_image_kept(view, data, channels, height as nat);
        assert(data.take(height * r) =~= data);
    }
}

/// RGBA pixels that are encoded, decoded and converted to RGBA are the pixels that went in.
/// Where their number does not fit the size given, they are refused.
pub proof fn law_rgba_pixels_come_back(width: u32, height: u32, data: Seq<u8>)
    requires
        width >= 1,
        height >= 1,
        height * (1 + 4 * width) <= DEFAULT_MAX_DECOMPRESSED_SIZE,
    ensures
        ({
            let info = common::plain_info(width, height, ColorType::Rgba, BitDepth::Eight);
            let file = writing::encoded(info, data, FilterStrategy::Sampled);
            if data.len() == 4 * width * height {
                &&& file is Ok
                &&& file::decoded(file->Ok_0, decoder::default_settings()) matches Ok(image)
                &&& transform::converted(image, 4) == Ok::<Seq<u8>, Error>(data)
            } else {
                file == Err::<Seq<u8>, Error>(
                    Error::WrongBufferSize {
                        expected: (4 * width * height) as usize,
                        found: data.len() as usize,
                    },
                )
            }
        }),
{
    lemma_pixels_come_back(width, height, data, 4);
}

/// RGB pixels that are encoded, decoded and converted to RGB are the pixels that went in.
/// Where their number does not fit the size given, they are refused.
pub proof fn law_rgb_pixels_come_back(width: u32, height: u32, data: Seq<u8>)
    requires
        width >= 1,
        height >= 1,
        height * (1 + 3 * width) <= DEFAULT_MAX_DECOMPRESSED_SIZE,
    ensures
        ({
            let info = common::plain_info(width, height, ColorType::Rgb, BitDepth::Eight);
            let file = writing::encoded(info, data, FilterStrategy::Sampled);
            if data.len() == 3 * width * height {
                &&& file is Ok
                &&& file::decoded(file->Ok_0, decoder::default_settings()) matches Ok(image)
                &&& transform::converted(image, 3) == Ok::<Seq<u8>, Error>(data)
            } else {
                file == Err::<Seq<u8>, Error>(
                    Error::WrongBufferSize {
                        expected: (3 * width * height) as usize,
                        found: data.len() as usize,
                    },
                )
            }
        }),
{
    lemma_pixels_come_back(width, height, data, 3);
}

} // verus!
