//! PNG decoding.

use vstd::prelude::*;
use vstd::arithmetic::div_mod::*;
use vstd::arithmetic::mul::*;
use crate::common;
use crate::common::{
    is_critical, same_kind, writable_kind, zeroed_vec, BitDepth, Chunk, ColorType, Info,
    Interlacing, SIGNATURE,
};
use crate::crc32::Crc32;
use crate::error::Error;
use crate::file;
use crate::filter::unfilter_image;
use crate::inflate::{Inflater, OUTPUT_SLACK};
use crate::interlace;
use crate::interlace::deinterlace;
use crate::stream;

verus! {

/// Which integrity checks the decoder performs.
#[derive(Clone, Copy, PartialEq, Eq, Debug, Structural)]
pub enum Checks {
    /// Verify the CRC of every chunk. This is the default.
    ///
    /// A chunk that fails is an error when it is critical and dropped when it is ancillary,
    /// since nothing the decoder returns is built from an ancillary chunk.
    ///
    /// The compressed stream also carries an Adler-32 over the data it expands to, but that
    /// covers the same bytes a second time: if the `IDAT` payload is intact and the
    /// decompressor is correct, so is its output. Checking only the CRC therefore detects
    /// the same file corruption for one pass over the data instead of two.
    Crc,
    /// Verify chunk CRCs *and* the Adler-32 of the decompressed data.
    ///
    /// Worth the second pass when the decompressed data must be guarded against faults that
    /// arise after the CRC has been checked, such as memory errors.
    Full,
    /// Verify nothing, and accept whatever the file contains.
    Nothing,
}

/// Which ancillary chunks a decode retains.
///
/// Nothing the decoder returns is built from an ancillary chunk, so by default they are
/// skipped without being copied. Retaining one costs an allocation and a copy of its
/// payload, which is why it is asked for rather than assumed.
///
/// A chunk that fails its CRC is dropped before this is consulted, so a retained chunk has
/// been verified unless [`Checks::Nothing`] is in force.
///
/// A chunk whose type the encoder would refuse is dropped too, however it was asked for: a
/// type that is not four ASCII letters is malformed, and `tRNS` is read into
/// [`Info::transparency`] instead. Everything retained can therefore be written back out.
#[derive(Clone, PartialEq, Eq, Debug)]
pub enum Keep {
    /// Retain nothing. This is the default.
    Nothing,
    /// Retain the ancillary chunks whose type appears in this list.
    Only(Vec<[u8; 4]>),
    /// Retain every ancillary chunk the file carries.
    ///
    /// The retained payloads are bounded by the size of the file they came from.
    All,
}

impl Default for Keep {
    fn default() -> (keep: Self)
        ensures
            keep is Nothing,
    {
        Keep::Nothing
    }
}

impl Keep {
    fn wants(&self, kind: [u8; 4]) -> (result: bool)
        ensures
            result == file::wanted(*self, kind),
    {
        match self {
            Keep::Nothing => false,
            Keep::Only(kinds) => {
                for index in 0..kinds.len()
                    invariant
                        *self == Keep::Only(*kinds),
                        forall|i: int| 0 <= i < index ==> #[trigger] kinds@[i] != kind,
                {
                    if same_kind(kinds[index], kind) {
                        assert(kinds@[index as int] == kind);
                        return true;
                    }
                }
                false
            },
            Keep::All => true,
        }
    }
}

/// A chunk borrowed from the input, as the reader yields it.
struct RawChunk<'a> {
    kind: [u8; 4],
    data: &'a [u8],
}

struct ChunkReader<'a> {
    data: &'a [u8],
    pos: usize,
    verify: bool,
}

/// Four bytes as a number, most significant byte first.
fn read_be32(data: &[u8], at: usize) -> (value: u32)
    requires
        at + 4 <= data@.len(),
    ensures
        value == stream::be32(data@, at as int),
{
    data[at] as u32 * 16777216 + data[at + 1] as u32 * 65536 + data[at + 2] as u32 * 256 + data[at
        + 3] as u32
}

impl<'a> ChunkReader<'a> {
    /// Yields the next chunk that passes its CRC.
    ///
    /// A bad CRC on a critical chunk is an error, because the image depends on it. On an
    /// ancillary chunk it is not: nothing the decoder produces depends on one, and files
    /// exist whose pixels are perfectly intact but whose colour profile or text metadata was
    /// rewritten without recomputing its checksum. Refusing those would lose an image over
    /// four stale bytes describing something that is discarded anyway, so the chunk is
    /// dropped and reading continues.
    ///
    /// Skipping still trusts the chunk's length field to find the next header, since the CRC
    /// does not cover it. A length corrupted along with the body resynchronises somewhere
    /// arbitrary, which then fails as a truncated or unknown critical chunk.
    fn next(&mut self, crc: &mut Crc32) -> (result: Result<Option<RawChunk<'a>>, Error>)
        requires
            old(self).pos <= old(self).data@.len(),
        ensures
            final(self).data == old(self).data,
            final(self).verify == old(self).verify,
            final(self).pos <= final(self).data@.len(),
            match file::next_chunk(old(self).data@, old(self).pos as int, old(self).verify) {
                Err(error) => result matches Err(failure) && failure == error,
                Ok(None) => result matches Ok(None),
                Ok(Some(found)) => result matches Ok(Some(chunk)) && chunk.kind == found.kind
                    && chunk.data@ == found.data && final(self).pos == found.end && found.end > old(self).pos,
            },
    {
        let total: usize = self.data.len();
        loop
            invariant
                self.data == old(self).data,
                self.verify == old(self).verify,
                total == self.data@.len(),
                old(self).pos <= self.pos <= total,
                file::next_chunk(self.data@, self.pos as int, self.verify) == file::next_chunk(
                    old(self).data@,
                    old(self).pos as int,
                    old(self).verify,
                ),
            decreases total - self.pos,
        {
            if self.pos == total {
                return Ok(None);
            }
            if total - self.pos < 8 {
                return Err(Error::TruncatedChunk);
            }
            let length: u32 = read_be32(self.data, self.pos);
            // The format caps chunk lengths at 2^31 - 1.
            if length > common::MAX_CHUNK_BYTES {
                return Err(Error::TruncatedChunk);
            }
            let length: usize = length as usize;
            let kind: [u8; 4] = [
                self.data[self.pos + 4],
                self.data[self.pos + 5],
                self.data[self.pos + 6],
                self.data[self.pos + 7],
            ];
            let body: usize = self.pos + 8;
            if total - body < 4 || total - body - 4 < length {
                return Err(Error::TruncatedChunk);
            }
            let end: usize = body + length + 4;
            if self.verify {
                let stored: u32 = read_be32(self.data, end - 4);
                crc.reset();
                crc.update(&self.data[self.pos + 4..end - 4]);
                if crc.finish() != stored {
                    if is_critical(kind) {
                        return Err(Error::BadChunkCrc { chunk: kind });
                    }
                    self.pos = end;
                    continue ;
                }
            }
            let whole: &'a [u8] = self.data;
            let data: &'a [u8] = &whole[body..end - 4];
            self.pos = end;
            return Ok(Some(RawChunk { kind, data }));
        }
    }
}

/// Whether a file begins with the signature.
fn has_signature(png: &[u8]) -> (result: bool)
    ensures
        result == file::signed(png@),
{
    if png.len() < SIGNATURE.len() {
        return false;
    }
    for i in 0..SIGNATURE.len()
        invariant
            png@.len() >= 8,
            SIGNATURE@.len() == 8,
            forall|k: int| 0 <= k < i ==> #[trigger] png@[k] == SIGNATURE@[k],
    {
        if png[i] != SIGNATURE[i] {
            assert(png@.take(8)[i as int] != SIGNATURE@[i as int]);
            return false;
        }
    }
    assert(png@.take(8) =~= SIGNATURE@);
    true
}

fn parse_ihdr(data: &[u8]) -> (result: Result<Info, Error>)
    ensures
        match result {
            Ok(info) => file::header(data@) == Ok::<common::InfoView, Error>(info@)
                && info@.checked() is Ok,
            Err(error) => file::header(data@) == Err::<common::InfoView, Error>(error),
        },
{
    if data.len() != 13 {
        return Err(Error::InvalidChunkLength { chunk: common::IHDR, length: data.len() });
    }
    let width: u32 = read_be32(data, 0);
    let height: u32 = read_be32(data, 4);
    let bit_depth = match BitDepth::from_byte(data[8]) {
        Some(depth) => depth,
        None => {
            return Err(Error::InvalidBitDepth { color_type: data[9], bit_depth: data[8] });
        },
    };
    let color_type = match ColorType::from_byte(data[9]) {
        Ok(color_type) => color_type,
        Err(error) => {
            return Err(error);
        },
    };
    if data[10] != 0 {
        return Err(Error::UnsupportedMethod { field: "compression method", value: data[10] });
    }
    if data[11] != 0 {
        return Err(Error::UnsupportedMethod { field: "filter method", value: data[11] });
    }
    let interlacing = match data[12] {
        0 => Interlacing::Sequential,
        1 => Interlacing::Adam7,
        other => {
            return Err(Error::InvalidInterlaceMethod(other));
        },
    };
    let mut info = Info::new(width, height, color_type, bit_depth);
    info.interlacing = interlacing;
    match info.validate() {
        Ok(()) => Ok(info),
        Err(error) => Err(error),
    }
}

/// Reads the signature and `IHDR`, leaving the reader positioned on the chunk after them.
///
/// Every entry point starts this way, and the two that follow it differ only in what they do
/// with the rest of the file, so sharing the prologue is what keeps them from drifting apart
/// on what counts as a valid header.
fn open<'a>(png: &'a [u8], checks: Checks, crc: &mut Crc32) -> (result: Result<
    (Info, ChunkReader<'a>),
    Error,
>)
    ensures
        match result {
            Ok((info, chunks)) => {
                &&& file::opened(png@, file::verifies(checks)) == Ok::<
                    (common::InfoView, int),
                    Error,
                >((info@, chunks.pos as int))
                &&& info@.checked() is Ok
                &&& chunks.data == png
                &&& chunks.pos <= png@.len()
                &&& chunks.verify == file::verifies(checks)
            },
            Err(error) => file::opened(png@, file::verifies(checks)) == Err::<
                (common::InfoView, int),
                Error,
            >(error),
        },
{
    if !has_signature(png) {
        return Err(Error::NotAPng);
    }
    let verify: bool = match checks {
        Checks::Nothing => false,
        _ => true,
    };
    let mut chunks = ChunkReader { data: png, pos: SIGNATURE.len(), verify };
    let chunk = match chunks.next(crc) {
        Err(error) => {
            return Err(error);
        },
        Ok(None) => {
            return Err(Error::MissingHeader);
        },
        Ok(Some(chunk)) => chunk,
    };
    if !same_kind(chunk.kind, common::IHDR) {
        return Err(Error::MissingHeader);
    }
    match parse_ihdr(chunk.data) {
        Ok(info) => Ok((info, chunks)),
        Err(error) => Err(error),
    }
}

/// Checks a `tRNS` chunk against the colour type it accompanies.
///
/// Shared with the encoder, which must not write a chunk it would itself reject.
pub fn validate_trns(info: &Info, data: &[u8]) -> (result: Result<(), Error>)
    ensures
        result == file::transparency_suits(info.color_type, data@.len() as int),
{
    let suits: bool = match info.color_type {
        ColorType::Grayscale => data.len() == 2,
        ColorType::Rgb => data.len() == 6,
        // For indexed images tRNS gives one alpha per palette entry, and may be short.
        ColorType::Indexed => data.len() <= 256,
        ColorType::GrayscaleAlpha | ColorType::Rgba => false,
    };
    if suits {
        Ok(())
    } else {
        Err(Error::InvalidChunkLength { chunk: common::TRNS, length: data.len() })
    }
}

fn copied(data: &[u8]) -> (copy: Vec<u8>)
    ensures
        copy@ == data@,
{
    let mut copy: Vec<u8> = Vec::new();
    copy.extend_from_slice(data);
    assert(copy@ =~= data@);
    copy
}

/// Folds one chunk that is neither `IDAT` nor `IEND` into the header being built.
///
/// `before_idat` says whether the image data has yet to start. `PLTE` and `tRNS` that follow
/// it are dropped rather than recorded: the format puts both ahead of the image data, and
/// honouring a late one would mean the pixels depended on an ordering this decoder does not
/// otherwise respect.
fn absorb(info: &mut Info, chunk: &RawChunk<'_>, keep: &Keep, before_idat: bool) -> (result: Result<
    (),
    Error,
>)
    ensures
        match result {
            Ok(()) => file::absorbed(old(info)@, chunk.kind, chunk.data@, *keep, before_idat) == Ok::<
                common::InfoView,
                Error,
            >(final(info)@),
            Err(error) => file::absorbed(old(info)@, chunk.kind, chunk.data@, *keep, before_idat)
                == Err::<common::InfoView, Error>(error),
        },
        same_shape(final(info)@, old(info)@),
{
    if same_kind(chunk.kind, common::PLTE) {
        let length: usize = chunk.data.len();
        if length > 256 * 3 || length % 3 != 0 {
            return Err(Error::InvalidChunkLength { chunk: chunk.kind, length });
        }
        if before_idat {
            info.palette = Some(copied(chunk.data));
        }
    } else if same_kind(chunk.kind, common::TRNS) {
        if before_idat {
            match validate_trns(info, chunk.data) {
                Ok(()) => {},
                Err(error) => {
                    return Err(error);
                },
            }
            info.transparency = Some(copied(chunk.data));
        }
    } else if is_critical(chunk.kind) {
        // Critical chunks we do not understand may change how the image should be
        // interpreted, so decoding cannot safely continue.
        return Err(Error::UnknownCriticalChunk { chunk: chunk.kind });
    } else if keep.wants(chunk.kind) && writable_kind(chunk.kind) {
        info.metadata.push(Chunk { kind: chunk.kind, data: copied(chunk.data) });
        assert(info@.metadata =~= old(info)@.metadata.push(
            common::ChunkView { kind: chunk.kind, data: chunk.data@ },
        ));
    }
    Ok(())
}

/// Two descriptions of the same dimensions and layout.
pub open spec fn same_shape(a: common::InfoView, b: common::InfoView) -> bool {
    &&& a.width == b.width
    &&& a.height == b.height
    &&& a.color_type == b.color_type
    &&& a.bit_depth == b.bit_depth
    &&& a.interlacing == b.interlacing
}

/// Reads the header and the colour chunks ahead of the image data. See
/// [`Decoder::read_info`].
///
/// Free of the [`Decoder`] so that the standalone [`read_info`] can call it without building
/// one: a `Decoder` owns an [`Inflater`], and reading a header should not cost the twenty
/// kilobytes of Huffman tables that decoding one does.
fn read_header(png: &[u8], checks: Checks, keep: &Keep, crc: &mut Crc32) -> (result: Result<
    Info,
    Error,
>)
    ensures
        match result {
            Ok(info) => file::described(png@, checks, *keep) == Ok::<common::InfoView, Error>(
                info@,
            ),
            Err(error) => file::described(png@, checks, *keep) == Err::<common::InfoView, Error>(
                error,
            ),
        },
{
    let (mut info, mut chunks) = match open(png, checks, crc) {
        Ok(opened) => opened,
        Err(error) => {
            return Err(error);
        },
    };
    let ghost want = file::described(png@, checks, *keep);
    loop
        invariant
            chunks.data == png,
            chunks.pos <= png@.len(),
            chunks.verify == file::verifies(checks),
            want == file::described(png@, checks, *keep),
            want == file::header_from(png@, chunks.pos as int, chunks.verify, *keep, info@),
        decreases png@.len() - chunks.pos,
    {
        let chunk = match chunks.next(crc) {
            Err(error) => {
                return Err(error);
            },
            Ok(None) => {
                return Err(Error::MissingImageData);
            },
            Ok(Some(chunk)) => chunk,
        };
        if same_kind(chunk.kind, common::IEND) {
            return Err(Error::MissingImageData);
        }
        if same_kind(chunk.kind, common::IDAT) {
            if info.color_type == ColorType::Indexed && info.palette.is_none() {
                return Err(Error::MissingPalette);
            }
            return Ok(info);
        }
        match absorb(&mut info, &chunk, keep, true) {
            Ok(()) => {},
            Err(error) => {
                return Err(error);
            },
        }
    }
}

/// Where the compressed image data is.
enum IdatData<'a> {
    /// No `IDAT` chunk so far.
    Missing,
    /// A single `IDAT` chunk, borrowed straight from the input.
    Contiguous(&'a [u8]),
    /// Several `IDAT` chunks, concatenated.
    Joined(Vec<u8>),
}

impl<'a> IdatData<'a> {
    spec fn bytes(self) -> Option<Seq<u8>> {
        match self {
            IdatData::Missing => None,
            IdatData::Contiguous(data) => Some(data@),
            IdatData::Joined(data) => Some(data@),
        }
    }

    /// The image data with the payload of one more chunk behind it. The common case of a
    /// single chunk borrows the compressed bytes instead of copying them.
    fn with(self, data: &'a [u8]) -> (joined: IdatData<'a>)
        ensures
            joined.bytes() == (match self.bytes() {
                None => Some(data@),
                Some(so_far) => Some(so_far + data@),
            }),
    {
        match self {
            IdatData::Missing => IdatData::Contiguous(data),
            IdatData::Contiguous(first) => {
                let mut buffer: Vec<u8> = Vec::new();
                buffer.extend_from_slice(first);
                buffer.extend_from_slice(data);
                assert(buffer@ =~= first@ + data@);
                IdatData::Joined(buffer)
            },
            IdatData::Joined(buffer) => {
                let mut buffer = buffer;
                buffer.extend_from_slice(data);
                IdatData::Joined(buffer)
            },
        }
    }
}

struct Parsed<'a> {
    info: Info,
    idat: IdatData<'a>,
}

/// Whether the image data has started.
fn has_started(idat: &IdatData<'_>) -> (started: bool)
    ensures
        started == (idat.bytes() is Some),
{
    match idat {
        IdatData::Missing => false,
        _ => true,
    }
}

/// Reads every chunk of a file, and joins its image data.
fn parse<'a>(
    png: &'a [u8],
    checks: Checks,
    keep: &Keep,
    limit: Option<usize>,
    crc: &mut Crc32,
) -> (result: Result<Parsed<'a>, Error>)
    ensures
        match result {
            Ok(parsed) => {
                &&& parsed.idat.bytes() is Some
                &&& file::parsed(png@, file::Settings { checks, keep: *keep, limit }) == Ok::<
                    (common::InfoView, Seq<u8>),
                    Error,
                >((parsed.info@, parsed.idat.bytes()->0))
                &&& parsed.info@.checked() is Ok
                &&& parsed.info@.addressable()
            },
            Err(error) => file::parsed(png@, file::Settings { checks, keep: *keep, limit }) == Err::<
                (common::InfoView, Seq<u8>),
                Error,
            >(error),
        },
{
    let (mut info, mut chunks) = match open(png, checks, crc) {
        Ok(opened) => opened,
        Err(error) => {
            return Err(error);
        },
    };
    // Checked here rather than at the allocation, so a header naming a petabyte costs
    // the thirty-three bytes already read and not a scan of whatever follows it.
    let wide: u128 = info.wide_size();
    if wide > usize::MAX as u128 {
        return Err(Error::ImageTooLarge);
    }
    if let Some(limit) = limit {
        proof {
            common::lemma_sizes(info@);
        }
        let size: usize = info.decompressed_size();
        if size > limit {
            return Err(Error::SizeLimitExceeded { size, limit });
        }
    }
    let ghost shape = info@;
    let ghost want = file::contents_from(
        png@,
        chunks.pos as int,
        chunks.verify,
        *keep,
        file::Contents { info: info@, idat: None },
    );
    let mut idat = IdatData::Missing;
    loop
        invariant_except_break
            chunks.data == png,
            chunks.pos <= png@.len(),
            want == file::contents_from(
                png@,
                chunks.pos as int,
                chunks.verify,
                *keep,
                file::Contents { info: info@, idat: idat.bytes() },
            ),
        invariant
            chunks.verify == file::verifies(checks),
            same_shape(info@, shape),
            wide == shape.decompressed_size() <= usize::MAX,
            file::parsed(png@, file::Settings { checks, keep: *keep, limit }) == (match want {
                Err(error) => Err::<(common::InfoView, Seq<u8>), Error>(error),
                Ok(contents) => if file::lacks_palette(contents.info) {
                    Err(Error::MissingPalette)
                } else {
                    match contents.idat {
                        None => Err(Error::MissingImageData),
                        Some(data) => if contents.info.addressable() {
                            Ok((contents.info, data))
                        } else {
                            Err(Error::ImageTooLarge)
                        },
                    }
                },
            }),
        ensures
            want == Ok::<file::Contents, Error>(
                file::Contents { info: info@, idat: idat.bytes() },
            ),
        decreases png@.len() - chunks.pos,
    {
        let chunk = match chunks.next(crc) {
            Err(error) => {
                return Err(error);
            },
            Ok(None) => {
                if has_started(&idat) {
                    // The end chunk is missing: the file was cut short.
                    return Err(Error::TruncatedChunk);
                }
                break ;
            },
            Ok(Some(chunk)) => chunk,
        };
        if same_kind(chunk.kind, common::IEND) {
            break ;
        }
        if same_kind(chunk.kind, common::IDAT) {
            idat = idat.with(chunk.data);
        } else {
            match absorb(&mut info, &chunk, keep, !has_started(&idat)) {
                Ok(()) => {},
                Err(error) => {
                    return Err(error);
                },
            }
        }
    }
    if info.color_type == ColorType::Indexed && info.palette.is_none() {
        return Err(Error::MissingPalette);
    }
    if !has_started(&idat) {
        return Err(Error::MissingImageData);
    }
    if wide + OUTPUT_SLACK as u128 > usize::MAX as u128 {
        return Err(Error::ImageTooLarge);
    }
    Ok(Parsed { info, idat })
}

/// A decoded image and the description of its pixel layout.
#[derive(Clone, PartialEq, Eq, Debug)]
pub struct Image {
    /// The image's dimensions and layout, along with any chunks the decoder was asked to keep.
    pub info: Info,
    /// Pixel data in the image's own format, tightly packed, with no filter bytes and no
    /// padding between rows beyond what a sub-byte bit depth requires.
    pub data: Vec<u8>,
}

impl View for Image {
    type V = file::ImageView;

    open spec fn view(&self) -> file::ImageView {
        file::ImageView { info: self.info@, data: self.data@ }
    }
}

impl Image {
    /// Width in pixels.
    pub fn width(&self) -> (width: u32)
        ensures
            width == self@.info.width,
    {
        self.info.width
    }

    /// Height in pixels.
    pub fn height(&self) -> (height: u32)
        ensures
            height == self@.info.height,
    {
        self.info.height
    }

    /// How samples are laid out within a pixel of [`Image::data`].
    pub fn color_type(&self) -> (color_type: ColorType)
        ensures
            color_type == self@.info.color_type,
    {
        self.info.color_type
    }

    /// Bits per sample in [`Image::data`].
    pub fn bit_depth(&self) -> (bit_depth: BitDepth)
        ensures
            bit_depth == self@.info.bit_depth,
    {
        self.info.bit_depth
    }
}

/// Rejects palette indices with no matching `PLTE` entry, so later conversions can index the
/// palette without a per-pixel range check.
fn validate_palette_indices(data: &[u8], info: &Info, entries: usize) -> (result: Result<(), Error>)
    requires
        info@.checked() is Ok,
        info.color_type is Indexed,
        data@.len() == info@.output_size(),
    ensures
        result == (if entries == 0 {
            Err::<(), Error>(Error::MissingPalette)
        } else if !file::indices_fit(info@, data@, entries as int) {
            Err(Error::PaletteIndexOutOfRange)
        } else {
            Ok(())
        }),
{
    if entries == 0 {
        return Err(Error::MissingPalette);
    }
    if info.bit_depth == BitDepth::Eight {
        return validate_bytes(data, info, entries);
    }
    // Sub-byte indices can only exceed the palette if the palette is smaller than the depth's
    // full range, which is rare enough to check the cheap way first.

    let bits: usize = info.bit_depth.bits();
    let full: usize = if bits == 1 {
        2
    } else if bits == 2 {
        4
    } else {
        16
    };
    if full <= entries {
        proof {
            assert forall|x: int, y: int|
                0 <= x < info@.width && 0 <= y < info@.height implies #[trigger] file::index_at(
                info@,
                data@,
                x,
                y,
            ) < entries by {
                lemma_packed_index(info@, data@, x, y);
            }
        }
        return Ok(());
    }
    validate_slots(data, info, entries)
}

/// The index of a pixel is one of the samples of a byte of its row.
proof fn lemma_packed_index(info: common::InfoView, data: Seq<u8>, x: int, y: int)
    requires
        info.checked() is Ok,
        info.color_type is Indexed,
        info.bit_depth !is Eight,
        data.len() == info.output_size(),
        0 <= x < info.width,
        0 <= y < info.height,
    ensures
        ({
            let bits = info.bits();
            let per = 8int / bits;
            let at = y * info.row_bytes() + x / per;
            &&& bits == 1 || bits == 2 || bits == 4
            &&& 0 <= y * info.row_bytes()
            &&& 0 <= x / per < info.row_bytes()
            &&& at < data.len()
            &&& 0 <= x % per * bits <= 8 - bits
            &&& per == (if bits == 1 {
                8int
            } else if bits == 2 {
                4
            } else {
                2
            })
            &&& file::index_at(info, data, x, y) == file::slot(
                data[at],
                bits as u8,
                (x % per * bits) as u8,
            )
            &&& file::index_at(info, data, x, y) < (if bits == 1 {
                2int
            } else if bits == 2 {
                4
            } else {
                16
            })
        }),
{
    let bits = info.bits();
    common::lemma_bits(info);
    common::lemma_sizes(info);
    interlace::lemma_cells(info.width as int, bits);
    interlace::lemma_row_place(y, info.height as int, info.row_bytes());
    interlace::lemma_cell(x, bits, info.row_bytes());
    let row = file::row_at(data, y, info.row_bytes());
    interlace::lemma_slot_range(row[x * bits / 8], bits as u8, (x * bits % 8) as u8);
}

fn validate_slots(data: &[u8], info: &Info, entries: usize) -> (result: Result<(), Error>)
    requires
        info@.checked() is Ok,
        info.color_type is Indexed,
        info.bit_depth !is Eight,
        data@.len() == info@.output_size(),
    ensures
        result == (if !file::indices_fit(info@, data@, entries as int) {
            Err::<(), Error>(Error::PaletteIndexOutOfRange)
        } else {
            Ok(())
        }),
{
    proof {
        common::lemma_bits(info@);
        common::lemma_sizes(info@);
    }
    let bits: u8 = info.bit_depth.bits() as u8;
    let per: usize = if bits == 1 {
        8
    } else if bits == 2 {
        4
    } else {
        2
    };
    let mask: u8 = if bits == 1 {
        1
    } else if bits == 2 {
        3
    } else {
        15
    };
    let width: usize = info.width as usize;
    let height: usize = info.height as usize;
    let row_bytes: usize = info.row_bytes();
    let size: usize = data.len();
    let ghost view = info@;
    assert(bits == view.bits());
    proof {
        lemma_packed_index(view, data@, 0, 0);
        interlace::lemma_slot_range(0, bits, 0);
    }
    for y in 0..height
        invariant
            view == info@,
            view.checked() is Ok,
            view.color_type is Indexed,
            view.bit_depth !is Eight,
            data@.len() == view.output_size() == size,
            bits == view.bits(),
            per == 8int / view.bits(),
            per == 8 || per == 4 || per == 2,
            mask == (1u8 << bits) - 1,
            width == view.width,
            height == view.height,
            row_bytes == view.row_bytes(),
            forall|i: int, j: int|
                0 <= i < width && 0 <= j < y ==> #[trigger] file::index_at(view, data@, i, j)
                    < entries,
    {
        for x in 0..width
            invariant
                view == info@,
                view.checked() is Ok,
                view.color_type is Indexed,
                view.bit_depth !is Eight,
                data@.len() == view.output_size() == size,
                bits == view.bits(),
                per == 8int / view.bits(),
                per == 8 || per == 4 || per == 2,
                mask == (1u8 << bits) - 1,
                width == view.width,
                height == view.height,
                y < height,
                row_bytes == view.row_bytes(),
                forall|i: int, j: int|
                    0 <= i < width && 0 <= j < y ==> #[trigger] file::index_at(view, data@, i, j)
                        < entries,
                forall|i: int|
                    0 <= i < x ==> #[trigger] file::index_at(view, data@, i, y as int) < entries,
        {
            proof {
                lemma_packed_index(view, data@, x as int, y as int);
            }
            let at: u8 = (x % per) as u8 * bits;
            let byte: u8 = data[y * row_bytes + x / per];
            let index: u8 = (byte >> (8 - bits - at)) & mask;
            assert(index == file::index_at(view, data@, x as int, y as int));
            if index as usize >= entries {
                return Err(Error::PaletteIndexOutOfRange);
            }
        }
    }
    Ok(())
}

/// The index of a pixel is a byte of its row.
proof fn lemma_byte_index(info: common::InfoView, data: Seq<u8>, x: int, y: int)
    requires
        info.checked() is Ok,
        info.color_type is Indexed,
        info.bit_depth is Eight,
        data.len() == info.output_size(),
        0 <= x < info.width,
        0 <= y < info.height,
    ensures
        info.row_bytes() == info.width,
        0 <= y * info.width + x < data.len(),
        file::index_at(info, data, x, y) == data[y * info.width + x],
{
    common::lemma_sizes(info);
    assert(info.bits() == 8);
    interlace::lemma_cells(info.width as int, 8);
    interlace::lemma_row_place(y, info.height as int, info.row_bytes());
    assert(info.row_bytes() == info.width);
    interlace::lemma_byte_pixel(file::row_at(data, y, info.row_bytes()), x);
}

fn validate_bytes(data: &[u8], info: &Info, entries: usize) -> (result: Result<(), Error>)
    requires
        info@.checked() is Ok,
        info.color_type is Indexed,
        info.bit_depth is Eight,
        data@.len() == info@.output_size(),
    ensures
        result == (if !file::indices_fit(info@, data@, entries as int) {
            Err::<(), Error>(Error::PaletteIndexOutOfRange)
        } else {
            Ok(())
        }),
{
    let ghost view = info@;
    for i in 0..data.len()
        invariant
            view == info@,
            view.checked() is Ok,
            view.color_type is Indexed,
            view.bit_depth is Eight,
            data@.len() == view.output_size(),
            forall|k: int| 0 <= k < i ==> #[trigger] data@[k] < entries,
    {
        if data[i] as usize >= entries {
            proof {
                let w = view.width as int;
                let x = i as int % w;
                let y = i as int / w;
                common::lemma_sizes(view);
                lemma_byte_index(view, data@, 0, 0);
                lemma_fundamental_div_mod(i as int, w);
                lemma_mul_is_commutative(w, y);
                lemma_div_pos_is_pos(i as int, w);
                lemma_mul_is_commutative(w, view.height as int);
                lemma_multiply_divide_lt(i as int, w, view.height as int);
                lemma_byte_index(view, data@, x, y);
                assert(file::index_at(view, data@, x, y) == data@[i as int]);
            }
            return Err(Error::PaletteIndexOutOfRange);
        }
    }
    proof {
        assert forall|x: int, y: int|
            0 <= x < view.width && 0 <= y < view.height implies #[trigger] file::index_at(
            view,
            data@,
            x,
            y,
        ) < entries by {
            lemma_byte_index(view, data@, x, y);
        }
    }
    Ok(())
}

/// The decoder's default ceiling on [`Info::decompressed_size`], in bytes.
///
/// Half a gigabyte admits any photograph or screen capture a caller is likely to have meant
/// to decode: a 16-bit RGBA image of 8000 by 8000 pixels fits inside it. What it refuses is
/// the class of file that only exists to be refused.
pub const DEFAULT_MAX_DECOMPRESSED_SIZE: usize = 536_870_912;

/// A reusable PNG decoder.
///
/// Reusing one decoder across images keeps the Huffman decoding tables allocated, which is
/// worth roughly 20 KiB of allocation and initialisation per image.
#[derive(Debug)]
pub struct Decoder {
    inflater: Inflater,
    crc: Crc32,
    checks: Checks,
    keep: Keep,
    max_decompressed_size: Option<usize>,
}

/// What a new decoder is set to do.
pub open spec fn default_settings() -> file::Settings {
    file::Settings {
        checks: Checks::Crc,
        keep: Keep::Nothing,
        limit: Some(DEFAULT_MAX_DECOMPRESSED_SIZE),
    }
}

/// Whether a decode may have failed for want of the memory it asked for.
pub open spec fn may_refuse(png: Seq<u8>, settings: file::Settings, bytes: usize) -> bool {
    match file::parsed(png, settings) {
        Err(_) => false,
        Ok((info, idat)) => {
            ||| bytes == info.decompressed_size() + OUTPUT_SLACK
            ||| {
                &&& bytes == info.output_size()
                &&& info.interlacing is Adam7
                &&& file::expanded(info, idat, settings.checks) is Ok
            }
        },
    }
}

impl Default for Decoder {
    fn default() -> (decoder: Self)
        ensures
            decoder.wf(),
            decoder.settings() == default_settings(),
    {
        Self::new()
    }
}

impl Decoder {
    /// Whether the tables have their proper sizes. Every decoder made by [`new`](Self::new)
    /// does, and every call keeps it so.
    pub closed spec fn wf(&self) -> bool {
        self.inflater.wf()
    }

    /// What the decoder is set to do.
    pub closed spec fn settings(&self) -> file::Settings {
        file::Settings {
            checks: self.checks,
            keep: self.keep,
            limit: self.max_decompressed_size,
        }
    }

    /// A decoder that checks chunk CRCs, keeps no metadata, and refuses an image declaring
    /// more than [`DEFAULT_MAX_DECOMPRESSED_SIZE`] bytes.
    pub fn new() -> (decoder: Self)
        ensures
            decoder.wf(),
            decoder.settings() == default_settings(),
    {
        Self {
            inflater: Inflater::new(),
            crc: Crc32::new(),
            checks: Checks::Crc,
            keep: Keep::Nothing,
            max_decompressed_size: Some(DEFAULT_MAX_DECOMPRESSED_SIZE),
        }
    }

    /// Selects which integrity checks to perform. See [`Checks`].
    pub fn checks(&mut self, checks: Checks) -> (result: &mut Self)
        ensures
            result.wf() == old(self).wf(),
            result.settings() == (file::Settings { checks, ..old(self).settings() }),
            *final(self) == *final(result),
    {
        self.checks = checks;
        self
    }

    /// Selects which ancillary chunks to retain. See [`Keep`].
    ///
    /// Retained chunks arrive in [`Info::metadata`], in file order, and are written back out
    /// by [`Encoder`](crate::Encoder) if that `Info` is handed to it again.
    ///
    /// ```no_run
    /// use png_spark::{Decoder, Keep};
    ///
    /// let mut decoder = Decoder::new();
    /// decoder.keep(Keep::Only(vec![*b"apPd"]));
    /// let image = decoder.decode(&std::fs::read("asset.png")?)?;
    /// let payload = image.info.chunk(b"apPd");
    /// # Ok::<(), Box<dyn std::error::Error>>(())
    /// ```
    pub fn keep(&mut self, keep: Keep) -> (result: &mut Self)
        ensures
            result.wf() == old(self).wf(),
            result.settings() == (file::Settings { keep, ..old(self).settings() }),
            *final(self) == *final(result),
    {
        self.keep = keep;
        self
    }

    /// Sets the largest [`Info::decompressed_size`] this decoder will accept, or `None` to
    /// accept any size the platform can address.
    ///
    /// `IHDR` is thirteen bytes and states the image's dimensions, and the decoder needs a
    /// buffer of the size they imply before it can read a single compressed byte. Nothing in
    /// the file has to justify that number: a seventy-byte PNG can name a width and height
    /// whose product runs to petabytes, and a decoder that believes it will ask the allocator
    /// for petabytes. PNG is a format that arrives from elsewhere far more often than it is
    /// written locally, so an unbounded decoder is a way to take a process down from across
    /// a network, and the ceiling is [`DEFAULT_MAX_DECOMPRESSED_SIZE`] rather than absent.
    ///
    /// The limit is on the decompressed data, filter bytes counted in, and not on pixels: the
    /// same pixel count spans a sixty-four-fold range of buffer sizes across PNG's colour
    /// types and bit depths, from one bit a pixel to sixty-four, so a pixel count does not
    /// bound what gets allocated.
    ///
    /// It bounds the largest single buffer, not the decode's peak. An interlaced image is
    /// unfiltered pass by pass into a second buffer of its own, so Adam7 holds close to
    /// twice the limit at once; every other image holds it once.
    ///
    /// A header over the limit is [`Error::SizeLimitExceeded`], reported before anything
    /// image-sized is allocated. Raising it for a caller who really does read hundred-
    /// megapixel images is a one-liner, and passing `None` restores the unbounded behaviour
    /// outright.
    ///
    /// [`read_info`](Self::read_info) is not bounded by this, because it allocates nothing
    /// that depends on the dimensions. A caller wanting to apply a policy of its own can
    /// read the header, decide, and only then decode.
    pub fn max_decompressed_size(&mut self, bytes: Option<usize>) -> (result: &mut Self)
        ensures
            result.wf() == old(self).wf(),
            result.settings() == (file::Settings { limit: bytes, ..old(self).settings() }),
            *final(self) == *final(result),
    {
        self.max_decompressed_size = bytes;
        self
    }

    /// Decodes a PNG into its native pixel format.
    ///
    /// Fails with [`Error::OutOfMemory`] only where a file that parses asks for more memory
    /// than the allocator grants.
    pub fn decode(&mut self, png: &[u8]) -> (result: Result<Image, Error>)
        requires
            old(self).wf(),
        ensures
            final(self).wf(),
            final(self).settings() == old(self).settings(),
            match result {
                Ok(image) => file::decoded(png@, old(self).settings()) == Ok::<
                    file::ImageView,
                    Error,
                >(image@),
                Err(Error::OutOfMemory { bytes }) => may_refuse(
                    png@,
                    old(self).settings(),
                    bytes,
                ),
                Err(error) => file::decoded(png@, old(self).settings()) == Err::<
                    file::ImageView,
                    Error,
                >(error),
            },
    {
        let ghost settings = self.settings();
        let parsed = match parse(
            png,
            self.checks,
            &self.keep,
            self.max_decompressed_size,
            &mut self.crc,
        ) {
            Ok(parsed) => parsed,
            Err(error) => {
                proof {
                    file::lemma_parse_errors(png@, settings);
                }
                return Err(error);
            },
        };
        let info = parsed.info;
        let ghost idat = parsed.idat.bytes()->0;
        proof {
            common::lemma_sizes(info@);
            common::lemma_bits(info@);
        }
        let verify: bool = match self.checks {
            Checks::Full => true,
            _ => false,
        };
        self.inflater.verify_checksum(verify);
        let size: usize = info.decompressed_size();
        let request: usize = size + OUTPUT_SLACK;
        let mut buffer = match zeroed_vec(request) {
            Some(buffer) => buffer,
            None => {
                return Err(Error::OutOfMemory { bytes: request });
            },
        };
        let inflated = match parsed.idat {
            IdatData::Missing => {
                return Err(Error::MissingImageData);
            },
            IdatData::Contiguous(data) => self.inflater.zlib(data, buffer.as_mut_slice()),
            IdatData::Joined(data) => self.inflater.zlib(data.as_slice(), buffer.as_mut_slice()),
        };
        match inflated {
            Ok(_) => {},
            Err(error) => {
                return Err(Error::Inflate(error));
            },
        }
        buffer.truncate(size);
        let ghost raw = buffer@;
        assert(file::expanded(info@, idat, settings.checks) == Ok::<Seq<u8>, Error>(raw));
        let data: Vec<u8> = match info.interlacing {
            Interlacing::Sequential => {
                match unfilter_sequential(&info, &mut buffer) {
                    Ok(()) => {},
                    Err(error) => {
                        return Err(error);
                    },
                }
                buffer
            },
            Interlacing::Adam7 => match deinterlace(&info, buffer.as_mut_slice()) {
                Ok(data) => data,
                Err(error) => {
                    return Err(error);
                },
            },
        };
        proof {
            file::lemma_pixels_len(info@, raw);
        }
        if info.color_type == ColorType::Indexed {
            let entries: usize = match &info.palette {
                Some(palette) => palette.len() / 3,
                None => {
                    return Err(Error::MissingPalette);
                },
            };
            match validate_palette_indices(data.as_slice(), &info, entries) {
                Ok(()) => {},
                Err(error) => {
                    return Err(error);
                },
            }
        }
        Ok(Image { info, data })
    }

    /// Reads everything a file says about its image, without decoding any of it.
    ///
    /// Parsing stops at the first `IDAT`, so the cost is the header and whatever colour
    /// chunks precede the image data, and nothing is allocated whose size depends on the
    /// dimensions. That makes this the seam for a caller who wants to decide something about
    /// an image before committing to decoding it, whether that is a size policy stricter
    /// than [`max_decompressed_size`](Self::max_decompressed_size), a colour type it has no
    /// use for, or simply the dimensions.
    ///
    /// Everything the decode would read before the pixels is present, `PLTE` and `tRNS`
    /// among it, so [`Info::has_alpha`] answers correctly here. What is absent is any
    /// ancillary chunk that trails the image data, since reaching one would mean reading
    /// the whole file.
    ///
    /// Only the chunks up to the first `IDAT` are examined, so this is the weaker check of
    /// the two in both directions. Nothing that only the pixels could contradict is caught,
    /// such as a palette an index runs past; neither is a structural fault in the tail of
    /// the file, such as an unknown critical chunk, a bad CRC, or a truncated trailer after
    /// the image data. A header this accepts can still fail to decode. A file this rejects
    /// would never have decoded.
    pub fn read_info(&self, png: &[u8]) -> (result: Result<Info, Error>)
        ensures
            match result {
                Ok(info) => file::described(
                    png@,
                    self.settings().checks,
                    self.settings().keep,
                ) == Ok::<common::InfoView, Error>(info@),
                Err(error) => file::described(
                    png@,
                    self.settings().checks,
                    self.settings().keep,
                ) == Err::<common::InfoView, Error>(error),
            },
    {
        let mut crc = Crc32::new();
        read_header(png, self.checks, &self.keep, &mut crc)
    }
}

/// Reverses the filters of a sequential image, whose expanded data `buffer` holds.
fn unfilter_sequential(info: &Info, buffer: &mut Vec<u8>) -> (result: Result<(), Error>)
    requires
        info@.checked() is Ok,
        info.interlacing is Sequential,
        old(buffer)@.len() == info@.decompressed_size(),
    ensures
        match result {
            Ok(()) => file::pixels(info@, old(buffer)@) == Ok::<Seq<u8>, Error>(final(buffer)@),
            Err(error) => error is InvalidFilter && file::pixels(info@, old(buffer)@) == Err::<
                Seq<u8>,
                Error,
            >(error),
        },
{
    proof {
        common::lemma_sizes(info@);
        common::lemma_bits(info@);
    }
    let row_bytes: usize = info.row_bytes();
    let height: usize = info.height as usize;
    let stride: usize = info.filter_stride();
    proof {
        lemma_mul_is_commutative(height as int, 1 + row_bytes as int);
        lemma_mul_is_commutative(height as int, row_bytes as int);
    }
    match unfilter_image(buffer.as_mut_slice(), row_bytes, height, stride) {
        Ok(()) => {},
        Err(row) => {
            return Err(Error::InvalidFilter { row });
        },
    }
    buffer.truncate(info.output_size());
    Ok(())
}

/// Decodes a PNG into its native pixel format.
pub fn decode(png: &[u8]) -> (result: Result<Image, Error>)
    ensures
        match result {
            Ok(image) => file::decoded(png@, default_settings()) == Ok::<file::ImageView, Error>(
                image@,
            ),
            Err(Error::OutOfMemory { bytes }) => may_refuse(png@, default_settings(), bytes),
            Err(error) => file::decoded(png@, default_settings()) == Err::<file::ImageView, Error>(
                error,
            ),
        },
{
    let mut decoder = Decoder::new();
    decoder.decode(png)
}

/// Reads a PNG's header and colour chunks without decoding its pixels.
///
/// See [`Decoder::read_info`].
pub fn read_info(png: &[u8]) -> (result: Result<Info, Error>)
    ensures
        match result {
            Ok(info) => file::described(png@, Checks::Crc, Keep::Nothing) == Ok::<
                common::InfoView,
                Error,
            >(info@),
            Err(error) => file::described(png@, Checks::Crc, Keep::Nothing) == Err::<
                common::InfoView,
                Error,
            >(error),
        },
{
    let mut crc = Crc32::new();
    read_header(png, Checks::Crc, &Keep::Nothing, &mut crc)
}

} // verus!
