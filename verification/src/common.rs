//! Image description shared by the decoder and the encoder.

use vstd::prelude::*;
use crate::error::Error;
use crate::inflate::OUTPUT_SLACK;

verus! {

/// The eight bytes every PNG file begins with.
pub const SIGNATURE: [u8; 8] = [0x89, 0x50, 0x4e, 0x47, 0x0d, 0x0a, 0x1a, 0x0a];

/// `IHDR`, the header chunk.
pub const IHDR: [u8; 4] = [0x49, 0x48, 0x44, 0x52];

/// `PLTE`, the palette chunk.
pub const PLTE: [u8; 4] = [0x50, 0x4c, 0x54, 0x45];

/// `IDAT`, the image data chunk.
pub const IDAT: [u8; 4] = [0x49, 0x44, 0x41, 0x54];

/// `IEND`, the chunk that ends a file.
pub const IEND: [u8; 4] = [0x49, 0x45, 0x4e, 0x44];

/// `tRNS`, the transparency chunk.
pub const TRNS: [u8; 4] = [0x74, 0x52, 0x4e, 0x53];

/// The longest payload a chunk may declare.
pub const MAX_CHUNK_BYTES: u32 = 0x7fff_ffff;

/// How samples are laid out within a pixel.
#[derive(Clone, Copy, PartialEq, Eq, Debug, Structural)]
pub enum ColorType {
    /// One grey sample per pixel.
    Grayscale,
    /// Three samples per pixel: red, green, blue.
    Rgb,
    /// One palette index per pixel, with the colours themselves in `PLTE`.
    Indexed,
    /// A grey sample and an alpha sample per pixel.
    GrayscaleAlpha,
    /// Four samples per pixel: red, green, blue, alpha.
    Rgba,
}

/// The `IHDR` byte of a colour type.
pub open spec fn color_byte(color_type: ColorType) -> u8 {
    match color_type {
        ColorType::Grayscale => 0,
        ColorType::Rgb => 2,
        ColorType::Indexed => 3,
        ColorType::GrayscaleAlpha => 4,
        ColorType::Rgba => 6,
    }
}

/// The colour type of an `IHDR` byte.
pub open spec fn color_of(byte: u8) -> Option<ColorType> {
    if byte == 0 {
        Some(ColorType::Grayscale)
    } else if byte == 2 {
        Some(ColorType::Rgb)
    } else if byte == 3 {
        Some(ColorType::Indexed)
    } else if byte == 4 {
        Some(ColorType::GrayscaleAlpha)
    } else if byte == 6 {
        Some(ColorType::Rgba)
    } else {
        None
    }
}

/// How many samples a pixel of a colour type has.
pub open spec fn samples_of(color_type: ColorType) -> int {
    match color_type {
        ColorType::Grayscale => 1,
        ColorType::Rgb => 3,
        ColorType::Indexed => 1,
        ColorType::GrayscaleAlpha => 2,
        ColorType::Rgba => 4,
    }
}

impl ColorType {
    /// Reads a colour type from its `IHDR` byte.
    ///
    /// PNG leaves 1, 5, 7 and everything above undefined, and those are the values that
    /// produce [`Error::InvalidColorType`].
    pub fn from_byte(byte: u8) -> (result: Result<Self, Error>)
        ensures
            match color_of(byte) {
                Some(color_type) => result == Ok::<ColorType, Error>(color_type),
                None => result == Err::<ColorType, Error>(Error::InvalidColorType(byte)),
            },
    {
        match byte {
            0 => Ok(ColorType::Grayscale),
            2 => Ok(ColorType::Rgb),
            3 => Ok(ColorType::Indexed),
            4 => Ok(ColorType::GrayscaleAlpha),
            6 => Ok(ColorType::Rgba),
            other => Err(Error::InvalidColorType(other)),
        }
    }

    /// The `IHDR` byte of this colour type.
    pub fn to_byte(self) -> (byte: u8)
        ensures
            byte == color_byte(self),
            color_of(byte) == Some(self),
    {
        match self {
            ColorType::Grayscale => 0,
            ColorType::Rgb => 2,
            ColorType::Indexed => 3,
            ColorType::GrayscaleAlpha => 4,
            ColorType::Rgba => 6,
        }
    }

    /// Number of samples stored per pixel. Indexed images store one index.
    pub fn samples(self) -> (count: usize)
        ensures
            count == samples_of(self),
            1 <= count <= 4,
    {
        match self {
            ColorType::Grayscale | ColorType::Indexed => 1,
            ColorType::GrayscaleAlpha => 2,
            ColorType::Rgb => 3,
            ColorType::Rgba => 4,
        }
    }

    /// Whether this colour type stores an alpha sample.
    pub fn has_alpha(self) -> (alpha: bool)
        ensures
            alpha == (self is GrayscaleAlpha || self is Rgba),
    {
        match self {
            ColorType::GrayscaleAlpha | ColorType::Rgba => true,
            _ => false,
        }
    }
}

/// Bits per sample.
#[derive(Clone, Copy, PartialEq, Eq, PartialOrd, Ord, Debug, Structural)]
pub enum BitDepth {
    /// One bit per sample; eight samples to the byte.
    One,
    /// Two bits per sample; four samples to the byte.
    Two,
    /// Four bits per sample; two samples to the byte.
    Four,
    /// One byte per sample.
    Eight,
    /// Two bytes per sample, stored most significant byte first.
    Sixteen,
}

/// The bits of a depth, which is also its `IHDR` byte.
pub open spec fn depth_bits(depth: BitDepth) -> u8 {
    match depth {
        BitDepth::One => 1,
        BitDepth::Two => 2,
        BitDepth::Four => 4,
        BitDepth::Eight => 8,
        BitDepth::Sixteen => 16,
    }
}

/// The bit depth of an `IHDR` byte.
pub open spec fn depth_of(byte: u8) -> Option<BitDepth> {
    if byte == 1 {
        Some(BitDepth::One)
    } else if byte == 2 {
        Some(BitDepth::Two)
    } else if byte == 4 {
        Some(BitDepth::Four)
    } else if byte == 8 {
        Some(BitDepth::Eight)
    } else if byte == 16 {
        Some(BitDepth::Sixteen)
    } else {
        None
    }
}

impl BitDepth {
    /// Reads a bit depth from its `IHDR` byte.
    ///
    /// `None` for a value PNG does not define. Whether a defined depth is legal for a
    /// particular colour type is a separate question, and not one this answers.
    pub fn from_byte(byte: u8) -> (result: Option<Self>)
        ensures
            result == depth_of(byte),
    {
        match byte {
            1 => Some(BitDepth::One),
            2 => Some(BitDepth::Two),
            4 => Some(BitDepth::Four),
            8 => Some(BitDepth::Eight),
            16 => Some(BitDepth::Sixteen),
            _ => None,
        }
    }

    /// Bits per sample, which is also the `IHDR` byte.
    pub fn bits(self) -> (bits: usize)
        ensures
            bits == depth_bits(self),
            depth_of(bits as u8) == Some(self),
            1 <= bits <= 16,
    {
        match self {
            BitDepth::One => 1,
            BitDepth::Two => 2,
            BitDepth::Four => 4,
            BitDepth::Eight => 8,
            BitDepth::Sixteen => 16,
        }
    }
}

/// Whether the image is stored progressively.
#[derive(Clone, Copy, PartialEq, Eq, Debug, Structural)]
pub enum Interlacing {
    /// Scanlines in order, top to bottom.
    Sequential,
    /// Seven passes over a subsampled grid, so a partial file shows the whole image
    /// coarsely. See [`ADAM7_PASSES`].
    Adam7,
}

/// The seven Adam7 passes as `(x_start, y_start, x_step, y_step)`.
pub const ADAM7_PASSES: [(usize, usize, usize, usize); 7] = [
    (0, 0, 8, 8),
    (4, 0, 8, 8),
    (0, 4, 4, 8),
    (2, 0, 4, 4),
    (0, 2, 2, 4),
    (1, 0, 2, 2),
    (0, 1, 1, 2),
];

/// How many of `length` positions, taken from `start` on in steps of `step`, there are.
pub open spec fn taken(length: int, start: int, step: int) -> int {
    if length <= start {
        0
    } else {
        (length - start + step - 1) / step
    }
}

/// The width of an Adam7 pass over an image `width` pixels wide.
pub open spec fn pass_width(pass: int, width: int) -> int {
    taken(width, ADAM7_PASSES[pass].0 as int, ADAM7_PASSES[pass].2 as int)
}

/// The height of an Adam7 pass over an image `height` pixels high.
pub open spec fn pass_height(pass: int, height: int) -> int {
    taken(height, ADAM7_PASSES[pass].1 as int, ADAM7_PASSES[pass].3 as int)
}

/// Each pass takes every first, second, fourth or eighth pixel from somewhere in the first
/// eight, and never more of them than there are.
pub proof fn lemma_pass(pass: int, width: int, height: int)
    requires
        0 <= pass < 7,
        0 <= width,
        0 <= height,
    ensures
        0 <= ADAM7_PASSES[pass].0 <= 4,
        0 <= ADAM7_PASSES[pass].1 <= 4,
        ADAM7_PASSES[pass].2 == 1 || ADAM7_PASSES[pass].2 == 2 || ADAM7_PASSES[pass].2 == 4
            || ADAM7_PASSES[pass].2 == 8,
        ADAM7_PASSES[pass].3 == 1 || ADAM7_PASSES[pass].3 == 2 || ADAM7_PASSES[pass].3 == 4
            || ADAM7_PASSES[pass].3 == 8,
        0 <= pass_width(pass, width) <= width,
        0 <= pass_height(pass, height) <= height,
{
    if pass == 0 {
    } else if pass == 1 {
    } else if pass == 2 {
    } else if pass == 3 {
    } else if pass == 4 {
    } else if pass == 5 {
    } else {
    }
}

/// How many steps cover a length.
fn div_up(length: usize, step: usize) -> (count: usize)
    requires
        step == 1 || step == 2 || step == 4 || step == 8,
    ensures
        count == (length + step - 1) / step as int,
{
    let whole: usize = length / step;
    if length % step == 0 {
        whole
    } else {
        whole + 1
    }
}

/// Width and height of one Adam7 pass over an image of the given size.
pub fn adam7_pass_size(pass: usize, width: usize, height: usize) -> (size: (usize, usize))
    requires
        pass < 7,
    ensures
        size.0 == pass_width(pass as int, width as int),
        size.1 == pass_height(pass as int, height as int),
{
    let (x_start, y_start, x_step, y_step) = ADAM7_PASSES[pass];
    proof {
        lemma_pass(pass as int, width as int, height as int);
    }
    let across: usize = if width <= x_start {
        0
    } else {
        div_up(width - x_start, x_step)
    };
    let down: usize = if height <= y_start {
        0
    } else {
        div_up(height - y_start, y_step)
    };
    (across, down)
}

/// An ancillary chunk carried alongside the image.
///
/// PNG stores everything in typed chunks, and requires a decoder to skip any ancillary
/// chunk it does not recognise. That makes an ancillary chunk the place to put application
/// data inside a PNG: the payload is arbitrary bytes, up to `i32::MAX` of them, with no
/// escaping and no encoding, and every other PNG reader in the world ignores it.
///
/// The four type bytes carry meaning in their capitalisation, and [`Chunk::validate`]
/// enforces it:
///
/// | byte | lower case | upper case |
/// | --- | --- | --- |
/// | 1 | ancillary: an unknowing decoder skips it | critical: an unknowing decoder fails |
/// | 2 | private: yours alone | public: registered with the format |
/// | 3 | reserved, and meaningless so far | what a conforming type uses |
/// | 4 | an editor that does not understand it may copy it through | unsafe to copy |
///
/// So a private chunk for an application uses a lower-case first byte, a lower-case second
/// byte, an upper-case third, and a lower-case fourth if an editor that rewrites the image
/// should carry it across: `b"apPd"`.
#[derive(Clone, PartialEq, Eq, Debug)]
pub struct Chunk {
    /// The four-byte chunk type.
    pub kind: [u8; 4],
    /// The chunk payload, stored verbatim.
    pub data: Vec<u8>,
}

/// A chunk as plain values.
#[verifier::ext_equal]
pub struct ChunkView {
    pub kind: [u8; 4],
    pub data: Seq<u8>,
}

impl View for Chunk {
    type V = ChunkView;

    open spec fn view(&self) -> ChunkView {
        ChunkView { kind: self.kind, data: self.data@ }
    }
}

pub open spec fn is_upper(byte: u8) -> bool {
    65 <= byte <= 90
}

pub open spec fn is_lower(byte: u8) -> bool {
    97 <= byte <= 122
}

pub open spec fn is_letter(byte: u8) -> bool {
    is_upper(byte) || is_lower(byte)
}

/// Whether a chunk of this type is carried as metadata: four letters, the first lower case,
/// the third upper case, and not `tRNS`.
pub open spec fn writable(kind: [u8; 4]) -> bool {
    is_lower(kind[0]) && is_letter(kind[1]) && is_upper(kind[2]) && is_letter(kind[3]) && kind
        != TRNS
}

/// A chunk is critical when the first letter of its type is upper case.
pub open spec fn critical(kind: [u8; 4]) -> bool {
    is_upper(kind[0])
}

impl ChunkView {
    /// Whether the encoder writes this chunk, or why it does not.
    pub open spec fn checked(self) -> Result<(), Error> {
        if !writable(self.kind) {
            Err(Error::InvalidChunkType { chunk: self.kind })
        } else if self.data.len() > MAX_CHUNK_BYTES {
            Err(Error::InvalidChunkLength { chunk: self.kind, length: self.data.len() as usize })
        } else {
            Ok(())
        }
    }
}

impl Chunk {
    /// Pairs a four-byte chunk type with its payload.
    ///
    /// Neither is checked here: the encoder is where an unwritable type is refused, and
    /// [`Chunk::validate`] is where the rules are.
    pub fn new(kind: [u8; 4], data: Vec<u8>) -> (chunk: Self)
        ensures
            chunk.kind == kind,
            chunk.data == data,
            chunk@ == (ChunkView { kind, data: data@ }),
    {
        Self { kind, data }
    }

    /// Checks that this chunk is one the encoder can write.
    ///
    /// The type must be four ASCII letters, its first lower case, and its third upper case. A
    /// critical type is rejected because the encoder writes the critical chunks itself and a
    /// decoder must fail on a critical type it does not know, so accepting one would produce a
    /// file this library could not read back. A lower-case third byte is reserved by the
    /// format and means nothing yet.
    ///
    /// `tRNS` is excluded for the same reason as the critical types: the encoder writes it
    /// itself from [`Info::transparency`], where it is checked against the colour type. A second
    /// one here would be an illegal duplicate, would silently displace the real transparency on
    /// read-back, and if its length did not suit the colour type would produce a file the
    /// decoder itself rejects.
    ///
    /// The payload is limited to `i32::MAX` bytes, the longest a PNG chunk may declare.
    ///
    /// Both sides of the library apply this, so anything the decoder hands back in
    /// [`Info::metadata`] can be handed to the encoder again.
    pub fn validate(&self) -> (result: Result<(), Error>)
        ensures
            result == self@.checked(),
    {
        if !writable_kind(self.kind) {
            return Err(Error::InvalidChunkType { chunk: self.kind });
        }
        if self.data.len() > MAX_CHUNK_BYTES as usize {
            return Err(Error::InvalidChunkLength { chunk: self.kind, length: self.data.len() });
        }
        Ok(())
    }
}

/// Whether two chunk types are the same.
pub fn same_kind(a: [u8; 4], b: [u8; 4]) -> (same: bool)
    ensures
        same == (a == b),
{
    let same: bool = a[0] == b[0] && a[1] == b[1] && a[2] == b[2] && a[3] == b[3];
    proof {
        if same {
            assert(a =~= b);
        }
    }
    same
}

fn upper(byte: u8) -> (result: bool)
    ensures
        result == is_upper(byte),
{
    65 <= byte && byte <= 90
}

fn lower(byte: u8) -> (result: bool)
    ensures
        result == is_lower(byte),
{
    97 <= byte && byte <= 122
}

/// Whether `kind` names a chunk that is carried as metadata.
///
/// The rules, and the reasons behind them, are documented on [`Chunk::validate`].
pub fn writable_kind(kind: [u8; 4]) -> (result: bool)
    ensures
        result == writable(kind),
{
    lower(kind[0]) && (upper(kind[1]) || lower(kind[1])) && upper(kind[2]) && (upper(kind[3])
        || lower(kind[3])) && !same_kind(kind, TRNS)
}

/// Whether `kind` names a critical chunk.
pub fn is_critical(kind: [u8; 4]) -> (result: bool)
    ensures
        result == critical(kind),
{
    upper(kind[0])
}

/// Everything `IHDR` and the colour chunks say about an image.
#[derive(Clone, PartialEq, Eq, Debug)]
pub struct Info {
    /// Width in pixels. Zero is not a valid image.
    pub width: u32,
    /// Height in pixels. Zero is not a valid image.
    pub height: u32,
    /// How samples are laid out within a pixel.
    ///
    /// Not the whole story on transparency, since `tRNS` carries alpha for colour types
    /// that have no alpha sample. [`Info::has_alpha`] is the question to ask about an image.
    pub color_type: ColorType,
    /// Bits per sample. Not every depth is legal for every colour type.
    pub bit_depth: BitDepth,
    /// Whether the file stores the image progressively.
    ///
    /// The decoder resolves Adam7 and hands back a normal image; the encoder only writes
    /// [`Interlacing::Sequential`].
    pub interlacing: Interlacing,
    /// `PLTE` contents: RGB triples, present for indexed images.
    pub palette: Option<Vec<u8>>,
    /// `tRNS` contents, in the layout its colour type defines.
    pub transparency: Option<Vec<u8>>,
    /// Ancillary chunks carried with the image.
    ///
    /// Empty unless the encoder is given some or the decoder is asked to keep them; see
    /// [`Chunk`] and [`Keep`](crate::decoder::Keep).
    ///
    /// The encoder writes these in order, except that it moves the few types the format
    /// places before `PLTE` ahead of it, so a file written from a list that was in the wrong
    /// order comes back in the right one.
    pub metadata: Vec<Chunk>,
}

/// An image description as plain values.
#[verifier::ext_equal]
pub struct InfoView {
    pub width: u32,
    pub height: u32,
    pub color_type: ColorType,
    pub bit_depth: BitDepth,
    pub interlacing: Interlacing,
    pub palette: Option<Seq<u8>>,
    pub transparency: Option<Seq<u8>>,
    pub metadata: Seq<ChunkView>,
}

/// The bytes of a vector that may be missing.
pub open spec fn optional(bytes: Option<Vec<u8>>) -> Option<Seq<u8>> {
    match bytes {
        Some(vector) => Some(vector@),
        None => None,
    }
}

/// The chunks of a list as plain values.
pub open spec fn chunk_views(chunks: Seq<Chunk>) -> Seq<ChunkView> {
    chunks.map_values(|chunk: Chunk| chunk@)
}

impl View for Info {
    type V = InfoView;

    open spec fn view(&self) -> InfoView {
        InfoView {
            width: self.width,
            height: self.height,
            color_type: self.color_type,
            bit_depth: self.bit_depth,
            interlacing: self.interlacing,
            palette: optional(self.palette),
            transparency: optional(self.transparency),
            metadata: chunk_views(self.metadata@),
        }
    }
}

/// A sequential image with no palette, transparency or metadata.
pub open spec fn plain_info(
    width: u32,
    height: u32,
    color_type: ColorType,
    bit_depth: BitDepth,
) -> InfoView {
    InfoView {
        width,
        height,
        color_type,
        bit_depth,
        interlacing: Interlacing::Sequential,
        palette: None,
        transparency: None,
        metadata: Seq::empty(),
    }
}

/// The payload of the first chunk of a type in a list.
pub open spec fn first_of(chunks: Seq<ChunkView>, kind: [u8; 4]) -> Option<Seq<u8>>
    decreases chunks.len(),
{
    if chunks.len() == 0 {
        None
    } else if chunks[0].kind == kind {
        Some(chunks[0].data)
    } else {
        first_of(chunks.skip(1), kind)
    }
}

/// The bytes that `width` pixels of `bits` bits each take, the last one filled up.
pub open spec fn row_len(width: int, bits: int) -> int {
    (width * bits + 7) / 8
}

/// The bytes that the scanlines of one Adam7 pass take, each behind its filter byte.
pub open spec fn pass_len(width: int, height: int, bits: int, pass: int) -> int {
    let across = pass_width(pass, width);
    let down = pass_height(pass, height);
    if across == 0 || down == 0 {
        0
    } else {
        (1 + row_len(across, bits)) * down
    }
}

/// The bytes that the first `passes` Adam7 passes take.
pub open spec fn passes_len(width: int, height: int, bits: int, passes: int) -> int
    decreases passes,
{
    if passes <= 0 {
        0
    } else {
        passes_len(width, height, bits, passes - 1) + pass_len(width, height, bits, passes - 1)
    }
}

/// Whether a colour type comes at a bit depth.
pub open spec fn depth_allowed(color_type: ColorType, bit_depth: BitDepth) -> bool {
    match color_type {
        ColorType::Grayscale => true,
        ColorType::Indexed => bit_depth !is Sixteen,
        _ => bit_depth is Eight || bit_depth is Sixteen,
    }
}

impl InfoView {
    /// Bits per pixel.
    pub open spec fn bits(self) -> int {
        samples_of(self.color_type) * depth_bits(self.bit_depth)
    }

    /// Bytes per pixel for the filters: at least one.
    pub open spec fn stride(self) -> int {
        if self.bits() < 8 {
            1
        } else {
            self.bits() / 8
        }
    }

    /// Bytes per scanline of the whole image.
    pub open spec fn row_bytes(self) -> int {
        row_len(self.width as int, self.bits())
    }

    /// Bytes of the whole image.
    pub open spec fn output_size(self) -> int {
        self.row_bytes() * self.height
    }

    /// Bytes of the whole image when every scanline has a filter byte in front.
    pub open spec fn sequential_size(self) -> int {
        (1 + self.row_bytes()) * self.height
    }

    /// Bytes that the compressed stream expands to.
    pub open spec fn decompressed_size(self) -> int {
        match self.interlacing {
            Interlacing::Sequential => self.sequential_size(),
            Interlacing::Adam7 => passes_len(self.width as int, self.height as int, self.bits(), 7),
        }
    }

    /// Whether the scanlines of the image take more bytes than the machine can address, with
    /// room to work.
    pub open spec fn too_large(self) -> bool {
        self.width * self.height * self.bits() / 8 + self.height > usize::MAX / 2
    }

    /// Whether what the compressed stream expands to can be addressed, with room to work. The
    /// passes of an interlaced image have more scanlines than the image, and so more filter
    /// bytes.
    pub open spec fn addressable(self) -> bool {
        self.decompressed_size() + OUTPUT_SLACK <= usize::MAX
    }

    /// Whether this describes an image, or why it does not.
    pub open spec fn checked(self) -> Result<(), Error> {
        if !depth_allowed(self.color_type, self.bit_depth) {
            Err(
                Error::InvalidBitDepth {
                    color_type: color_byte(self.color_type),
                    bit_depth: depth_bits(self.bit_depth),
                },
            )
        } else if self.width == 0 || self.height == 0 {
            Err(Error::EmptyImage)
        } else if self.too_large() {
            Err(Error::ImageTooLarge)
        } else {
            Ok(())
        }
    }

    /// Whether any pixel can be other than opaque.
    pub open spec fn has_alpha(self) -> bool {
        self.color_type is GrayscaleAlpha || self.color_type is Rgba || self.transparency is Some
    }
}

/// A pixel takes 1, 2, 4 or a multiple of 8 bits, and its filter stride is one of six.
pub proof fn lemma_bits(info: InfoView)
    ensures
        1 <= info.bits() <= 64,
        depth_allowed(info.color_type, info.bit_depth) ==> {
            &&& info.stride() == 1 || info.stride() == 2 || info.stride() == 3 || info.stride() == 4
                || info.stride() == 6 || info.stride() == 8
            &&& info.bits() == 1 || info.bits() == 2 || info.bits() == 4 || info.bits()
                == 8 * info.stride()
        },
{
}

/// The sizes of an image that is not too large all fit the machine.
pub proof fn lemma_sizes(info: InfoView)
    requires
        info.checked() is Ok,
    ensures
        1 <= info.row_bytes() < usize::MAX,
        0 < info.output_size() <= usize::MAX,
        info.output_size() + info.height == info.sequential_size(),
        info.sequential_size() + OUTPUT_SLACK <= usize::MAX,
        0 <= info.decompressed_size(),
        info.interlacing is Sequential ==> info.addressable(),
{
    let w = info.width as int;
    let h = info.height as int;
    let b = info.bits();
    let r = info.row_bytes();
    lemma_bits(info);
    assert(w * b >= 1) by (nonlinear_arith)
        requires
            w >= 1,
            b >= 1,
    ;
    assert(8 * r <= w * b + 7);
    assert(r * h >= 1) by (nonlinear_arith)
        requires
            r >= 1,
            h >= 1,
    ;
    assert((1 + r) * h == r * h + h) by (nonlinear_arith);
    assert(8 * (r * h) <= w * h * b + 7 * h) by (nonlinear_arith)
        requires
            8 * r <= w * b + 7,
            h >= 1,
    ;
    assert(r <= r * h) by (nonlinear_arith)
        requires
            r >= 1,
            h >= 1,
    ;
    lemma_passes_len(w, h, b, 7);
}

pub proof fn lemma_passes_len(width: int, height: int, bits: int, passes: int)
    requires
        0 <= width,
        0 <= height,
        1 <= bits,
        0 <= passes <= 7,
    ensures
        0 <= passes_len(width, height, bits, passes),
    decreases passes,
{
    if passes > 0 {
        lemma_passes_len(width, height, bits, passes - 1);
        lemma_pass_len(width, height, bits, passes - 1);
    }
}

/// The scanlines of one pass take no fewer bytes than any part of them.
pub proof fn lemma_pass_len(width: int, height: int, bits: int, pass: int)
    requires
        0 <= width,
        0 <= height,
        1 <= bits,
        0 <= pass < 7,
    ensures
        0 <= pass_len(width, height, bits, pass),
        pass_width(pass, width) > 0 && pass_height(pass, height) > 0 ==> {
            &&& 1 <= row_len(pass_width(pass, width), bits) < pass_len(width, height, bits, pass)
            &&& pass_height(pass, height) <= pass_len(width, height, bits, pass)
        },
{
    lemma_pass(pass, width, height);
    let across = pass_width(pass, width);
    let down = pass_height(pass, height);
    if across > 0 && down > 0 {
        assert(across * bits >= 1) by (nonlinear_arith)
            requires
                across >= 1,
                bits >= 1,
        ;
        let r = row_len(across, bits);
        assert((1 + r) * down >= 1 + r && (1 + r) * down >= down) by (nonlinear_arith)
            requires
                r >= 1,
                down >= 1,
        ;
    }
}

pub proof fn lemma_passes_monotonic(width: int, height: int, bits: int, i: int, j: int)
    requires
        0 <= width,
        0 <= height,
        1 <= bits,
        0 <= i <= j <= 7,
    ensures
        passes_len(width, height, bits, i) <= passes_len(width, height, bits, j),
    decreases j,
{
    if i < j {
        lemma_passes_monotonic(width, height, bits, i, j - 1);
        lemma_pass_len(width, height, bits, j - 1);
    }
}

impl Info {
    /// Describes a sequential image with no palette, transparency or metadata.
    ///
    /// The remaining fields are public, so an image that needs them sets them afterwards or
    /// builds the struct directly.
    pub fn new(width: u32, height: u32, color_type: ColorType, bit_depth: BitDepth) -> (info: Self)
        ensures
            info@ == plain_info(width, height, color_type, bit_depth),
    {
        let info = Self {
            width,
            height,
            color_type,
            bit_depth,
            interlacing: Interlacing::Sequential,
            palette: None,
            transparency: None,
            metadata: Vec::new(),
        };
        assert(info@.metadata =~= Seq::empty());
        info
    }

    /// The payload of the first metadata chunk of this type, if one is present.
    pub fn chunk(&self, kind: &[u8; 4]) -> (payload: Option<&[u8]>)
        ensures
            match payload {
                Some(bytes) => first_of(self@.metadata, *kind) == Some(bytes@),
                None => first_of(self@.metadata, *kind) is None,
            },
    {
        let mut index: usize = 0;
        let ghost all = self@.metadata;
        assert(all.skip(0) =~= all);
        while index < self.metadata.len()
            invariant
                index <= self.metadata.len(),
                all == chunk_views(self.metadata@),
                first_of(all, *kind) == first_of(all.skip(index as int), *kind),
            decreases self.metadata.len() - index,
        {
            assert(all.skip(index as int)[0] == self.metadata[index as int]@);
            if same_kind(self.metadata[index].kind, *kind) {
                return Some(self.metadata[index].data.as_slice());
            }
            assert(all.skip(index as int).skip(1) =~= all.skip(index + 1));
            index += 1;
        }
        None
    }

    /// Whether any pixel of the image can be other than fully opaque.
    ///
    /// PNG spells transparency two ways, and the colour type only tells half the story: a
    /// palette or greyscale image carries its alpha in `tRNS` instead of in the pixels, so
    /// its colour type stays [`Indexed`](ColorType::Indexed) or
    /// [`Grayscale`](ColorType::Grayscale) while the image is nonetheless transparent.
    ///
    /// Decoders that expand every image to RGBA hide that distinction. This one hands back
    /// the file's own format, so it does not, and a caller that reads the colour type alone
    /// silently loses the alpha of every palette image. Ask here instead.
    ///
    /// This is a question about the format, not about the pixels: it is true for an image
    /// whose alpha channel happens to be opaque throughout, and for a `tRNS` chunk none of
    /// whose entries any pixel actually uses.
    ///
    /// [`ColorType::has_alpha`] answers the narrower question of whether the pixels
    /// themselves carry an alpha sample. That is the one to ask about a layout; this is the
    /// one to ask about an image.
    pub fn has_alpha(&self) -> (alpha: bool)
        ensures
            alpha == self@.has_alpha(),
    {
        self.color_type.has_alpha() || self.transparency.is_some()
    }

    /// Bits occupied by one pixel.
    pub fn bits_per_pixel(&self) -> (bits: usize)
        ensures
            bits == self@.bits(),
            1 <= bits <= 64,
    {
        let samples: usize = self.color_type.samples();
        let depth: usize = self.bit_depth.bits();
        assert(1 <= samples * depth <= 64) by (nonlinear_arith)
            requires
                1 <= samples <= 4,
                1 <= depth <= 16,
        ;
        samples * depth
    }

    /// Filter stride: bytes per pixel, rounded up to one byte for sub-byte depths.
    ///
    /// The filters operate on whole bytes, so packed formats use a stride of one.
    pub fn filter_stride(&self) -> (stride: usize)
        ensures
            stride == self@.stride(),
    {
        let bits: usize = self.bits_per_pixel();
        if bits < 8 {
            1
        } else {
            bits / 8
        }
    }

    /// Bytes in one scanline of a sequential image.
    pub fn row_bytes(&self) -> (bytes: usize)
        requires
            self@.row_bytes() <= usize::MAX,
        ensures
            bytes == self@.row_bytes(),
    {
        let bits: usize = self.bits_per_pixel();
        assert(self.width * bits <= 0xffff_ffff * 64) by (nonlinear_arith)
            requires
                self.width <= 0xffff_ffff,
                bits <= 64,
        ;
        row_bytes_for(self.width as usize, bits)
    }

    /// Bytes in the fully decoded image, without filter bytes.
    pub fn output_size(&self) -> (bytes: usize)
        requires
            self@.row_bytes() <= usize::MAX,
            self@.output_size() <= usize::MAX,
        ensures
            bytes == self@.output_size(),
    {
        self.row_bytes() * self.height as usize
    }

    /// Bytes the compressed stream expands to, including one filter byte per scanline.
    ///
    /// For interlaced images every non-empty pass contributes its own scanlines.
    pub fn decompressed_size(&self) -> (bytes: usize)
        requires
            self.interlacing is Sequential ==> self@.row_bytes() < usize::MAX,
            self@.decompressed_size() <= usize::MAX,
        ensures
            bytes == self@.decompressed_size(),
    {
        match self.interlacing {
            Interlacing::Sequential => (1 + self.row_bytes()) * self.height as usize,
            Interlacing::Adam7 => {
                let bits: usize = self.bits_per_pixel();
                let width: usize = self.width as usize;
                let height: usize = self.height as usize;
                let mut total: usize = 0;
                for pass in 0..7usize
                    invariant
                        1 <= bits <= 64,
                        width <= 0xffff_ffff,
                        passes_len(width as int, height as int, bits as int, 7) <= usize::MAX,
                        total == passes_len(width as int, height as int, bits as int, pass as int),
                {
                    let (across, down) = adam7_pass_size(pass, width, height);
                    proof {
                        lemma_pass(pass as int, width as int, height as int);
                        lemma_passes_len(width as int, height as int, bits as int, pass as int);
                        lemma_pass_len(width as int, height as int, bits as int, pass as int);
                        lemma_passes_monotonic(
                            width as int,
                            height as int,
                            bits as int,
                            pass + 1,
                            7,
                        );
                        assert(across * bits <= 0xffff_ffff * 64) by (nonlinear_arith)
                            requires
                                across <= 0xffff_ffff,
                                bits <= 64,
                        ;
                    }
                    if across != 0 && down != 0 {
                        total += (1 + row_bytes_for(across, bits)) * down;
                    }
                }
                total
            },
        }
    }

    /// Validates the combination of colour type and bit depth against the format, and the
    /// dimensions against what the machine can address.
    pub fn validate(&self) -> (result: Result<(), Error>)
        ensures
            result == self@.checked(),
    {
        let allowed: bool = match self.color_type {
            ColorType::Grayscale => true,
            ColorType::Rgb | ColorType::GrayscaleAlpha | ColorType::Rgba => match self.bit_depth {
                BitDepth::Eight | BitDepth::Sixteen => true,
                _ => false,
            },
            ColorType::Indexed => match self.bit_depth {
                BitDepth::Sixteen => false,
                _ => true,
            },
        };
        if !allowed {
            return Err(
                Error::InvalidBitDepth {
                    color_type: self.color_type.to_byte(),
                    bit_depth: self.bit_depth.bits() as u8,
                },
            );
        }
        if self.width == 0 || self.height == 0 {
            return Err(Error::EmptyImage);
        }
        // Reject sizes whose scanline arithmetic would not fit in a `usize`.
        let w = self.width as u128;
        let h = self.height as u128;
        let bits = self.bits_per_pixel() as u128;
        assert(w * h <= 0x1_0000_0000 * 0x1_0000_0000) by (nonlinear_arith)
            requires
                w <= 0xffff_ffff,
                h <= 0xffff_ffff,
        ;
        assert(w * h * bits <= 0x1_0000_0000 * 0x1_0000_0000 * 64) by (nonlinear_arith)
            requires
                0 <= w * h <= 0x1_0000_0000 * 0x1_0000_0000,
                bits <= 64,
        ;
        if w * h * bits / 8 + h > (usize::MAX / 2) as u128 {
            return Err(Error::ImageTooLarge);
        }
        Ok(())
    }

    /// [`Info::decompressed_size`], for any dimensions at all.
    pub(crate) fn wide_size(&self) -> (bytes: u128)
        requires
            self.width > 0,
            self.height > 0,
        ensures
            bytes == self@.decompressed_size(),
            bytes <= 0x100_0000_0000_0000_0000_0000,
    {
        let bits = self.bits_per_pixel() as u128;
        let w = self.width as u128;
        let h = self.height as u128;
        assert(w * bits <= 0xffff_ffff * 64) by (nonlinear_arith)
            requires
                w <= 0xffff_ffff,
                bits <= 64,
        ;
        match self.interlacing {
            Interlacing::Sequential => {
                let row: u128 = (w * bits + 7) / 8;
                assert((1 + row) * h <= 0x10_0000_0000 * 0x1_0000_0000) by (nonlinear_arith)
                    requires
                        0 <= row < 0x10_0000_0000,
                        h <= 0xffff_ffff,
                ;
                (1 + row) * h
            },
            Interlacing::Adam7 => {
                let mut total: u128 = 0;
                for pass in 0..7usize
                    invariant
                        1 <= bits <= 64,
                        self.width > 0,
                        self.height > 0,
                        total == passes_len(
                            self.width as int,
                            self.height as int,
                            bits as int,
                            pass as int,
                        ),
                        total <= pass * 0x10_0000_0000_0000_0000,
                {
                    let (across, down) = adam7_pass_size(
                        pass,
                        self.width as usize,
                        self.height as usize,
                    );
                    proof {
                        lemma_pass(pass as int, self.width as int, self.height as int);
                    }
                    if across != 0 && down != 0 {
                        let a = across as u128;
                        let d = down as u128;
                        assert(a * bits <= 0xffff_ffff * 64) by (nonlinear_arith)
                            requires
                                a <= 0xffff_ffff,
                                bits <= 64,
                        ;
                        let row: u128 = (a * bits + 7) / 8;
                        assert(0 <= (1 + row) * d <= 0x10_0000_0000 * 0x1_0000_0000) by (nonlinear_arith)
                            requires
                                0 <= row < 0x10_0000_0000,
                                0 <= d <= 0xffff_ffff,
                        ;
                        total += (1 + row) * d;
                    }
                }
                total
            },
        }
    }
}

/// Bytes needed for `width` pixels of `bits_per_pixel` bits each.
pub fn row_bytes_for(width: usize, bits_per_pixel: usize) -> (bytes: usize)
    requires
        width * bits_per_pixel + 7 <= u64::MAX,
        row_len(width as int, bits_per_pixel as int) <= usize::MAX,
    ensures
        bytes == row_len(width as int, bits_per_pixel as int),
{
    ((width as u64 * bits_per_pixel as u64 + 7) / 8) as usize
}

/// `len` zero bytes.
pub open spec fn zeros(len: nat) -> Seq<u8> {
    Seq::new(len, |i: int| 0u8)
}

/// Asks the allocator for room for `additional` more bytes, and says whether it was granted.
///
/// Calls `Vec::try_reserve_exact`, of which it claims only that the contents of the vector
/// stay as they are. Whether there is room is up to the allocator.
#[verifier::external_body]
fn reserve_exact(buffer: &mut Vec<u8>, additional: usize) -> (granted: bool)
    ensures
        final(buffer)@ == old(buffer)@,
{
    buffer.try_reserve_exact(additional).is_ok()
}

/// `len` zero bytes, or `None` if the allocator cannot provide them.
///
/// Sizes that come out of a file are asked for through this, so that one no machine can meet
/// is an error to report rather than an abort. A size beyond what a vector can hold is
/// refused before the allocator is asked.
pub fn zeroed_vec(len: usize) -> (result: Option<Vec<u8>>)
    ensures
        match result {
            Some(buffer) => buffer@ == zeros(len as nat) && len <= isize::MAX,
            None => len > 0,
        },
{
    if len > isize::MAX as usize {
        return None;
    }
    let mut buffer: Vec<u8> = Vec::new();
    if len == 0 {
        assert(buffer@ =~= zeros(0));
        return Some(buffer);
    }
    if !reserve_exact(&mut buffer, len) {
        return None;
    }
    buffer.resize(len, 0);
    assert(buffer@ =~= zeros(len as nat));
    Some(buffer)
}

} // verus!
