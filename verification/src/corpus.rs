//! Preparing real files for a comparison of encoders.
//!
//! Everything here works on bytes and values. Finding files, timing and printing are left to
//! the program that runs the comparison.

use vstd::prelude::*;
use vstd::string::*;
use crate::common;
use crate::common::{BitDepth, Chunk, ColorType, Info, InfoView, Interlacing};
use crate::decoder::Image;
use crate::error::Error;
use crate::file::ImageView;
use crate::transform;

verus! {

// ---------------------------------------------------------------------------------------
// Pixels that every encoder takes
// ---------------------------------------------------------------------------------------

/// One image, in a layout that encoders without palettes accept.
#[derive(Clone, PartialEq, Eq, Debug)]
pub struct Source {
    /// The layout of the pixels.
    pub info: Info,
    /// The pixels.
    pub pixels: Vec<u8>,
}

/// A description without palette, transparency and interlacing, in another layout.
pub open spec fn relaid(info: InfoView, color_type: ColorType, bit_depth: BitDepth) -> InfoView {
    InfoView {
        color_type,
        bit_depth,
        interlacing: Interlacing::Sequential,
        palette: None,
        transparency: None,
        ..info
    }
}

/// Grey bytes as opaque RGBA.
pub open spec fn widened_grey(data: Seq<u8>) -> Seq<u8> {
    Seq::new(
        4 * data.len(),
        |i: int|
            if i % 4 == 3 {
                255u8
            } else {
                data[i / 4]
            },
    )
}

/// Pairs of grey and alpha bytes as RGBA.
pub open spec fn widened_grey_alpha(data: Seq<u8>) -> Seq<u8> {
    Seq::new(
        4 * (data.len() / 2),
        |i: int|
            if i % 4 == 3 {
                data[i / 4 * 2 + 1]
            } else {
                data[i / 4 * 2]
            },
    )
}

/// An image in the layout that encoders are compared on.
///
/// Indexed images are expanded through the palette and eight-bit grey is widened to RGBA.
/// Anything else is left in the file's own layout, which is what an encoder would really be
/// handed.
pub open spec fn normalised(image: ImageView) -> Result<ImageView, Error> {
    let info = image.info;
    match (info.color_type, info.bit_depth) {
        (ColorType::Indexed, _) => {
            let alpha = info.transparency is Some;
            let color_type = if alpha {
                ColorType::Rgba
            } else {
                ColorType::Rgb
            };
            match transform::converted(
                image,
                if alpha {
                    4
                } else {
                    3
                },
            ) {
                Err(error) => Err(error),
                Ok(data) => Ok(ImageView { info: relaid(info, color_type, BitDepth::Eight), data }),
            }
        },
        (ColorType::Grayscale, BitDepth::Eight) => Ok(
            ImageView {
                info: relaid(info, ColorType::Rgba, BitDepth::Eight),
                data: widened_grey(image.data),
            },
        ),
        (ColorType::GrayscaleAlpha, BitDepth::Eight) => Ok(
            ImageView {
                info: relaid(info, ColorType::Rgba, BitDepth::Eight),
                data: widened_grey_alpha(image.data),
            },
        ),
        _ => Ok(
            ImageView { info: relaid(info, info.color_type, info.bit_depth), data: image.data },
        ),
    }
}

fn copy_bytes(bytes: &Vec<u8>) -> (copy: Vec<u8>)
    ensures
        copy@ == bytes@,
{
    let mut copy: Vec<u8> = Vec::new();
    copy.extend_from_slice(bytes.as_slice());
    assert(copy@ =~= bytes@);
    copy
}

fn copy_chunks(chunks: &Vec<Chunk>) -> (copy: Vec<Chunk>)
    ensures
        common::chunk_views(copy@) == common::chunk_views(chunks@),
{
    let mut copy: Vec<Chunk> = Vec::new();
    for i in 0..chunks.len()
        invariant
            copy@.len() == i,
            forall|k: int| 0 <= k < i ==> (#[trigger] copy@[k])@ == chunks@[k]@,
    {
        let chunk = Chunk::new(chunks[i].kind, copy_bytes(&chunks[i].data));
        copy.push(chunk);
    }
    assert(common::chunk_views(copy@) =~= common::chunk_views(chunks@));
    copy
}

fn widen_grey(data: &Vec<u8>) -> (widened: Vec<u8>)
    ensures
        widened@ == widened_grey(data@),
{
    let mut widened: Vec<u8> = Vec::new();
    for i in 0..data.len()
        invariant
            widened@ == widened_grey(data@.take(i as int)),
    {
        let grey: u8 = data[i];
        widened.push(grey);
        widened.push(grey);
        widened.push(grey);
        widened.push(255);
        assert(widened@ =~= widened_grey(data@.take(i + 1)));
    }
    assert(data@.take(data@.len() as int) =~= data@);
    widened
}

fn widen_grey_alpha(data: &Vec<u8>) -> (widened: Vec<u8>)
    ensures
        widened@ == widened_grey_alpha(data@),
{
    let mut widened: Vec<u8> = Vec::new();
    let total: usize = data.len();
    let pairs: usize = total / 2;
    for k in 0..pairs
        invariant
            total == data@.len(),
            pairs == total / 2,
            widened@ == widened_grey_alpha(data@.take(2 * k)),
    {
        let grey: u8 = data[2 * k];
        let alpha: u8 = data[2 * k + 1];
        widened.push(grey);
        widened.push(grey);
        widened.push(grey);
        widened.push(alpha);
        assert(widened@ =~= widened_grey_alpha(data@.take(2 * (k + 1))));
    }
    assert(widened_grey_alpha(data@.take(2 * pairs)) =~= widened_grey_alpha(data@));
    widened
}

/// Converts an image to the layout that encoders are compared on.
pub fn normalise(image: &Image) -> (result: Result<Source, Error>)
    requires
        image@.info.color_type is Indexed ==> transform::convertible(image@, 4),
    ensures
        match result {
            Ok(source) => normalised(image@) == Ok::<ImageView, Error>(
                ImageView { info: source.info@, data: source.pixels@ },
            ),
            Err(error) => normalised(image@) == Err::<ImageView, Error>(error),
        },
{
    let mut info = Info {
        width: image.info.width,
        height: image.info.height,
        color_type: image.info.color_type,
        bit_depth: image.info.bit_depth,
        interlacing: Interlacing::Sequential,
        palette: None,
        transparency: None,
        metadata: copy_chunks(&image.info.metadata),
    };
    let pixels: Vec<u8> = match (image.info.color_type, image.info.bit_depth) {
        (ColorType::Indexed, _) => {
            let converted = if image.info.transparency.is_some() {
                info.color_type = ColorType::Rgba;
                image.to_rgba8()
            } else {
                info.color_type = ColorType::Rgb;
                assert(transform::convertible(image@, 3)) by {
                    let n = image@.info.width * image@.info.height;
                    assert(n >= 0) by (nonlinear_arith)
                        requires
                            n == image@.info.width * image@.info.height,
                    ;
                }
                image.to_rgb8()
            };
            info.bit_depth = BitDepth::Eight;
            match converted {
                Ok(data) => data,
                Err(error) => {
                    return Err(error);
                },
            }
        },
        (ColorType::Grayscale, BitDepth::Eight) => {
            info.color_type = ColorType::Rgba;
            widen_grey(&image.data)
        },
        (ColorType::GrayscaleAlpha, BitDepth::Eight) => {
            info.color_type = ColorType::Rgba;
            widen_grey_alpha(&image.data)
        },
        _ => copy_bytes(&image.data),
    };
    Ok(Source { info, pixels })
}

// ---------------------------------------------------------------------------------------
// Tallies and labels
// ---------------------------------------------------------------------------------------

/// What was measured of a number of files. Times are in nanoseconds.
#[derive(Clone, Copy, PartialEq, Eq, Debug)]
pub struct Stats {
    pub files: u64,
    pub pixels: u64,
    pub raw: u64,
    pub our_size: u64,
    pub their_size: u64,
    pub our_encode: u64,
    pub our_decode: u64,
    pub their_encode: u64,
    pub their_decode: u64,
}

impl Stats {
    /// Nothing measured.
    pub fn none() -> (stats: Self)
        ensures
            stats == (Stats {
                files: 0,
                pixels: 0,
                raw: 0,
                our_size: 0,
                their_size: 0,
                our_encode: 0,
                our_decode: 0,
                their_encode: 0,
                their_decode: 0,
            }),
    {
        Stats {
            files: 0,
            pixels: 0,
            raw: 0,
            our_size: 0,
            their_size: 0,
            our_encode: 0,
            our_decode: 0,
            their_encode: 0,
            their_decode: 0,
        }
    }

    /// Whether two tallies can be put together.
    pub open spec fn fits(self, other: Stats) -> bool {
        &&& self.files + other.files <= u64::MAX
        &&& self.pixels + other.pixels <= u64::MAX
        &&& self.raw + other.raw <= u64::MAX
        &&& self.our_size + other.our_size <= u64::MAX
        &&& self.their_size + other.their_size <= u64::MAX
        &&& self.our_encode + other.our_encode <= u64::MAX
        &&& self.our_decode + other.our_decode <= u64::MAX
        &&& self.their_encode + other.their_encode <= u64::MAX
        &&& self.their_decode + other.their_decode <= u64::MAX
    }

    /// Adds another tally to this one.
    pub fn add(&mut self, other: &Stats)
        requires
            old(self).fits(*other),
        ensures
            final(self).files == old(self).files + other.files,
            final(self).pixels == old(self).pixels + other.pixels,
            final(self).raw == old(self).raw + other.raw,
            final(self).our_size == old(self).our_size + other.our_size,
            final(self).their_size == old(self).their_size + other.their_size,
            final(self).our_encode == old(self).our_encode + other.our_encode,
            final(self).our_decode == old(self).our_decode + other.our_decode,
            final(self).their_encode == old(self).their_encode + other.their_encode,
            final(self).their_decode == old(self).their_decode + other.their_decode,
    {
        self.files += other.files;
        self.pixels += other.pixels;
        self.raw += other.raw;
        self.our_size += other.our_size;
        self.their_size += other.their_size;
        self.our_encode += other.our_encode;
        self.our_decode += other.our_decode;
        self.their_encode += other.their_encode;
        self.their_decode += other.their_decode;
    }
}

/// A label that fits a column: a dot for nothing, and of a label that is too long its end
/// behind three dots.
pub open spec fn shortened(text: Seq<char>, width: int) -> Seq<char> {
    if text.len() == 0 {
        "."@
    } else if text.len() <= width {
        text
    } else {
        "..."@ + text.skip(text.len() - (width - 3))
    }
}

/// A label fits its column and is not empty. One that fits by itself stays as it is, and of
/// one that does not the end stays, behind three dots.
pub proof fn law_label_fits(text: Seq<char>, width: int)
    requires
        width >= 3,
    ensures
        1 <= shortened(text, width).len() <= width,
        1 <= text.len() <= width ==> shortened(text, width) == text,
        text.len() > width ==> shortened(text, width).len() == width && shortened(text, width).take(
            3,
        ) == seq!['.', '.', '.'] && forall|i: int|
            0 <= i < width - 3 ==> #[trigger] shortened(text, width)[width - 1 - i]
                == text[text.len() - 1 - i],
        text.len() == 0 ==> shortened(text, width) == seq!['.'],
{
    reveal_strlit(".");
    reveal_strlit("...");
    assert("."@ =~= seq!['.']);
    if text.len() > width {
        assert(shortened(text, width).take(3) =~= seq!['.', '.', '.']);
    }
}

/// Shortens a label to fit a column, keeping the tail that distinguishes it.
pub fn shorten(text: &str, width: usize) -> (label: String)
    requires
        width >= 3 || (1 <= width && text@.len() <= width),
    ensures
        label@ == shortened(text@, width as int),
{
    let count: usize = text.unicode_len();
    if count == 0 {
        return String::from_str(".");
    }
    if count <= width {
        return String::from_str(text);
    }
    let mut label = String::from_str("...");
    let tail: &str = text.substring_char(count - (width - 3), count);
    label.append(tail);
    assert(tail@ =~= text@.skip(text@.len() - (width - 3)));
    label
}

/// How hard the other encoder is asked to work.
#[derive(Clone, Copy, PartialEq, Eq, Debug, Structural)]
pub enum Speed {
    Uncompressed,
    Fastest,
    Fast,
    Balanced,
    High,
}

/// The setting that a name stands for.
pub open spec fn speed_of(name: Seq<char>) -> Option<Speed> {
    if name == "none"@ {
        Some(Speed::Uncompressed)
    } else if name == "fastest"@ {
        Some(Speed::Fastest)
    } else if name == "fast"@ {
        Some(Speed::Fast)
    } else if name == "balanced"@ {
        Some(Speed::Balanced)
    } else if name == "high"@ {
        Some(Speed::High)
    } else {
        None
    }
}

fn same_text(a: &str, b: &str) -> (same: bool)
    ensures
        same == (a@ == b@),
{
    let count: usize = a.unicode_len();
    if count != b.unicode_len() {
        return false;
    }
    for i in 0..count
        invariant
            count == a@.len() == b@.len(),
            forall|k: int| 0 <= k < i ==> #[trigger] a@[k] == b@[k],
    {
        if a.get_char(i) != b.get_char(i) {
            return false;
        }
    }
    assert(a@ =~= b@);
    true
}

/// Reads the name of a setting.
///
/// The other encoder's own default is `balanced`, which is what its users get without asking.
/// `fast` is the closest thing to this library's single design point, and the fairer speed
/// comparison.
pub fn compression(name: &str) -> (speed: Option<Speed>)
    ensures
        speed == speed_of(name@),
{
    if same_text(name, "none") {
        Some(Speed::Uncompressed)
    } else if same_text(name, "fastest") {
        Some(Speed::Fastest)
    } else if same_text(name, "fast") {
        Some(Speed::Fast)
    } else if same_text(name, "balanced") {
        Some(Speed::Balanced)
    } else if same_text(name, "high") {
        Some(Speed::High)
    } else {
        None
    }
}

} // verus!
