//! One file of a benchmark, with the intermediate forms that the measurements need.

use vstd::prelude::*;
use crate::common;
use crate::common::{same_kind, BitDepth, ColorType};
use crate::decoder;
use crate::decoder::{decode, default_settings, Image};
use crate::error::Error;
use crate::file;
use crate::file::ImageView;
use crate::stream;

verus! {

// ---------------------------------------------------------------------------------------
// Image data as it stands in a file
// ---------------------------------------------------------------------------------------

/// The payloads of the `IDAT` chunks from `p` on, joined, or `None` if a chunk runs past the
/// end of the file. Checksums are not looked at.
pub open spec fn idat_from(png: Seq<u8>, p: int) -> Option<Seq<u8>>
    decreases
            (if p < png.len() {
                png.len() - p
            } else {
                0
            }),
{
    if p + 8 > png.len() || p < 0 {
        Some(Seq::empty())
    } else {
        let kind = file::kind_at(png, p + 4);
        let end = p + 8 + stream::be32(png, p);
        if kind == common::IEND {
            Some(Seq::empty())
        } else if kind == common::IDAT {
            if end > png.len() {
                None
            } else {
                match idat_from(png, end + 4) {
                    None => None,
                    Some(rest) => Some(png.subrange(p + 8, end) + rest),
                }
            }
        } else {
            idat_from(png, end + 4)
        }
    }
}

/// The compressed image data of a file: the payloads of its `IDAT` chunks, joined. `None` if
/// one of them runs past the end of the file.
pub fn extract_idat(png: &[u8]) -> (result: Option<Vec<u8>>)
    ensures
        match result {
            Some(data) => idat_from(png@, 8) == Some(data@),
            None => idat_from(png@, 8) is None,
        },
{
    let mut out: Vec<u8> = Vec::new();
    let total: usize = png.len();
    let mut pos: usize = 8;
    let ghost want = idat_from(png@, 8);
    proof {
        if let Some(rest) = want {
            assert(out@ + rest =~= rest);
        }
    }
    while pos <= total && total - pos >= 8
        invariant
            total == png@.len(),
            want == idat_from(png@, 8),
            want == (match idat_from(png@, pos as int) {
                None => None,
                Some(rest) => Some(out@ + rest),
            }),
        ensures
            want == Some(out@),
        decreases total - pos,
    {
        let length: usize = (png[pos] as usize * 16777216) + (png[pos + 1] as usize * 65536) + (
        png[pos + 2] as usize * 256) + (png[pos + 3] as usize);
        let kind: [u8; 4] = [png[pos + 4], png[pos + 5], png[pos + 6], png[pos + 7]];
        let body: usize = pos + 8;
        if same_kind(kind, common::IEND) {
            assert(out@ + Seq::<u8>::empty() =~= out@);
            return Some(out);
        }
        let inside: bool = total - body >= length;
        if same_kind(kind, common::IDAT) {
            if !inside {
                return None;
            }
            let ghost before = out@;
            let piece: &[u8] = &png[body..body + length];
            out.extend_from_slice(piece);
            proof {
                if let Some(rest) = idat_from(png@, body + length + 4) {
                    assert(before + (piece@ + rest) =~= out@ + rest);
                }
            }
        }
        if !inside || total - body - length < 4 {
            assert(idat_from(png@, body + length + 4) == Some(Seq::<u8>::empty()));
            assert(out@ + Seq::<u8>::empty() =~= out@);
            return Some(out);
        }
        pos = body + length + 4;
    }
    assert(out@ + Seq::<u8>::empty() =~= out@);
    Some(out)
}

// ---------------------------------------------------------------------------------------
// Test images
// ---------------------------------------------------------------------------------------

/// One image to measure on.
#[derive(Clone, PartialEq, Eq, Debug)]
pub struct TestImage {
    /// What the image is called in a report.
    pub name: String,
    /// The file.
    pub png: Vec<u8>,
    /// Its pixels, in its own layout.
    pub pixels: Vec<u8>,
    pub width: u32,
    pub height: u32,
    pub color_type: ColorType,
    pub bit_depth: BitDepth,
    /// Filter bytes and filtered scanlines, as the image data expands to.
    pub raw_stream: Vec<u8>,
    /// The image data, joined.
    pub zlib_stream: Vec<u8>,
}

impl TestImage {
    /// Whether this is the image that a file, its decoded form and its image data make.
    pub open spec fn made_of(
        &self,
        name: Seq<char>,
        png: Seq<u8>,
        image: ImageView,
        zlib_stream: Seq<u8>,
        raw_stream: Seq<u8>,
    ) -> bool {
        &&& self.name@ == name
        &&& self.png@ == png
        &&& self.pixels@ == image.data
        &&& self.width == image.info.width
        &&& self.height == image.info.height
        &&& self.color_type == image.info.color_type
        &&& self.bit_depth == image.info.bit_depth
        &&& self.raw_stream@ == raw_stream
        &&& self.zlib_stream@ == zlib_stream
    }
}

/// Why a file is no use as a test image.
#[derive(Clone, PartialEq, Eq, Debug)]
pub enum Unfit {
    /// It does not decode.
    Undecodable(Error),
    /// A chunk of image data runs past its end.
    CutShort,
    /// The other decompressor does not accept its image data.
    Disputed,
}

/// What `fdeflate::decompress_to_vec` makes of a zlib stream: the bytes it expands to, or
/// `None` where it reports an error.
pub uninterp spec fn fdeflate_expanded(stream: Seq<u8>) -> Option<Seq<u8>>;

/// Calls `fdeflate::decompress_to_vec`, and drops the reason of a failure. The result depends
/// on the stream alone. Nothing is claimed of which streams it accepts or of the bytes.
#[verifier::external_body]
fn fdeflate_decompress(stream: &[u8]) -> (result: Option<Vec<u8>>)
    ensures
        match result {
            Some(bytes) => fdeflate_expanded(stream@) == Some(bytes@),
            None => fdeflate_expanded(stream@) is None,
        },
{
    fdeflate::decompress_to_vec(stream).ok()
}

/// Puts a test image together from a file, its decoded form, its image data and what the
/// other decompressor made of that.
pub fn assemble(
    name: String,
    png: Vec<u8>,
    image: Image,
    zlib_stream: Vec<u8>,
    expanded: Option<Vec<u8>>,
) -> (result: Result<TestImage, Unfit>)
    ensures
        match result {
            Ok(test) => expanded is Some && test.made_of(
                name@,
                png@,
                image@,
                zlib_stream@,
                expanded->Some_0@,
            ),
            Err(reason) => expanded is None && reason is Disputed,
        },
{
    match expanded {
        None => Err(Unfit::Disputed),
        Some(raw_stream) => Ok(
            TestImage {
                name,
                png,
                pixels: image.data,
                width: image.info.width,
                height: image.info.height,
                color_type: image.info.color_type,
                bit_depth: image.info.bit_depth,
                raw_stream,
                zlib_stream,
            },
        ),
    }
}

/// Makes a test image of a file. The filtered scanlines come from the other decompressor, so
/// that both start from streams they did not write.
pub fn test_image(name: String, png: Vec<u8>) -> (result: Result<TestImage, Unfit>)
    ensures
        match result {
            Ok(test) => {
                let image = file::decoded(png@, default_settings());
                let zlib_stream = idat_from(png@, 8);
                &&& image is Ok
                &&& zlib_stream is Some
                &&& fdeflate_expanded(zlib_stream->Some_0) is Some
                &&& test.made_of(
                    name@,
                    png@,
                    image->Ok_0,
                    zlib_stream->Some_0,
                    fdeflate_expanded(zlib_stream->Some_0)->Some_0,
                )
            },
            Err(Unfit::Undecodable(Error::OutOfMemory { bytes })) => decoder::may_refuse(
                png@,
                default_settings(),
                bytes,
            ),
            Err(Unfit::Undecodable(error)) => file::decoded(png@, default_settings()) == Err::<
                ImageView,
                Error,
            >(error),
            Err(Unfit::CutShort) => file::decoded(png@, default_settings()) is Ok && idat_from(
                png@,
                8,
            ) is None,
            Err(Unfit::Disputed) => {
                &&& file::decoded(png@, default_settings()) is Ok
                &&& idat_from(png@, 8) is Some
                &&& fdeflate_expanded(idat_from(png@, 8)->Some_0) is None
            },
        },
{
    let image = match decode(png.as_slice()) {
        Ok(image) => image,
        Err(error) => {
            return Err(Unfit::Undecodable(error));
        },
    };
    let zlib_stream = match extract_idat(png.as_slice()) {
        Some(data) => data,
        None => {
            return Err(Unfit::CutShort);
        },
    };
    let expanded = fdeflate_decompress(zlib_stream.as_slice());
    assemble(name, png, image, zlib_stream, expanded)
}

} // verus!
