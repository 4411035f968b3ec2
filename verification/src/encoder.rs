//! PNG encoding.

use vstd::prelude::*;
use vstd::arithmetic::div_mod::*;
use vstd::arithmetic::mul::*;
use crate::adler32;
use crate::bits;
use crate::common;
use crate::common::{same_kind, BitDepth, Chunk, ColorType, Info, InfoView, SIGNATURE};
use crate::crc32;
use crate::crc32::Crc32;
use crate::decoder::validate_trns;
use crate::deflate::{Deflater, ZlibStream};
use crate::encoding;
use crate::error::Error;
use crate::file;
use crate::filter;
use crate::filter::{filter_row, Filter};
use crate::interlace;
use crate::selection;
use crate::writing;
use crate::writing::{BAND_TARGET_BYTES, IDAT_CHUNK_BYTES};

verus! {

/// How the encoder picks a filter for each scanline.
#[derive(Clone, Copy, PartialEq, Eq, Debug, Structural)]
pub enum FilterStrategy {
    /// Score all five filters on every byte of the row and keep the best.
    ///
    /// The most thorough option, and the most expensive: it walks the row five times before
    /// writing it once.
    Adaptive,
    /// Score all five filters on a sample of the row and keep the best.
    ///
    /// A scanline is homogeneous enough that a fraction of its pixels ranks the filters the
    /// same way the whole row does, so this reaches essentially the same sizes as
    /// [`Self::Adaptive`] for a fraction of the work. This is the default.
    Sampled,
    /// Always use the given filter.
    ///
    /// Useful when the data's structure is already known: `Up` for images that vary slowly
    /// down the page, `Raw` for data that is already incompressible.
    Fixed(Filter),
}

impl Default for FilterStrategy {
    fn default() -> (strategy: Self)
        ensures
            strategy is Sampled,
    {
        FilterStrategy::Sampled
    }
}

// ---------------------------------------------------------------------------------------
// Chunks
// ---------------------------------------------------------------------------------------

/// The four bytes of a number, most significant first.
fn be_array(value: u32) -> (bytes: [u8; 4])
    ensures
        bytes@ == encoding::be_bytes(value as nat),
{
    let bytes: [u8; 4] = [
        (value / 16777216) as u8,
        ((value / 65536) % 256) as u8,
        ((value / 256) % 256) as u8,
        (value % 256) as u8,
    ];
    assert(bytes@ =~= encoding::be_bytes(value as nat));
    bytes
}

/// Appends one chunk: length, type, payload, CRC.
fn write_chunk(output: &mut Vec<u8>, kind: &[u8; 4], data: &[u8], crc: &mut Crc32)
    requires
        data@.len() <= common::MAX_CHUNK_BYTES,
    ensures
        final(output)@ == old(output)@ + writing::chunk_bytes(*kind, data@),
{
    let length: [u8; 4] = be_array(data.len() as u32);
    crc.reset();
    crc.update(kind);
    crc.update(data);
    let sum: [u8; 4] = be_array(crc.finish());
    proof {
        crc32::law_split_anywhere(0xffff_ffff, kind@, data@);
    }
    output.extend_from_slice(&length);
    output.extend_from_slice(kind);
    output.extend_from_slice(data);
    output.extend_from_slice(&sum);
    assert(output@ =~= old(output)@ + writing::chunk_bytes(*kind, data@));
}

/// Whether the format requires this chunk to appear before `PLTE`.
fn precedes_palette(chunk: &Chunk) -> (result: bool)
    ensures
        result == writing::before_palette(chunk.kind),
{
    let kind: [u8; 4] = chunk.kind;
    same_kind(kind, [0x63, 0x48, 0x52, 0x4d]) || same_kind(kind, [0x67, 0x41, 0x4d, 0x41])
        || same_kind(kind, [0x69, 0x43, 0x43, 0x50]) || same_kind(kind, [0x73, 0x42, 0x49, 0x54])
        || same_kind(kind, [0x73, 0x52, 0x47, 0x42]) || same_kind(kind, [0x63, 0x49, 0x43, 0x50])
        || same_kind(kind, [0x6d, 0x44, 0x43, 0x76]) || same_kind(kind, [0x63, 0x4c, 0x4c, 0x69])
}

/// Appends the metadata that goes on one side of the palette.
fn write_metadata(output: &mut Vec<u8>, info: &Info, before: bool, crc: &mut Crc32)
    requires
        writing::chunks_checked(info@.metadata) is Ok,
    ensures
        final(output)@ == old(output)@ + writing::chunks_bytes(
            writing::side(info@.metadata, before),
        ),
{
    let ghost start = output@;
    let ghost all = info@.metadata;
    let count: usize = info.metadata.len();
    proof {
        assert(all.take(0) =~= Seq::empty());
        assert(start + writing::chunks_bytes(writing::side(all.take(0), before)) =~= start);
        assert(all.take(count as int) =~= all);
    }
    for i in 0..count
        invariant
            count == info.metadata@.len() == all.len(),
            all == info@.metadata,
            all.take(count as int) == all,
            writing::chunks_checked(all) is Ok,
            output@ == start + writing::chunks_bytes(writing::side(all.take(i as int), before)),
    {
        let chunk: &Chunk = &info.metadata[i];
        let ghost so_far = all.take(i as int);
        let ghost next = all.take(i + 1);
        proof {
            assert(next.drop_last() =~= so_far);
            assert(next.last() == chunk@);
            lemma_checked_prefix(all, i as int);
        }
        if precedes_palette(chunk) == before {
            let ghost done = writing::chunks_bytes(writing::side(so_far, before));
            let ghost here = writing::chunk_bytes(chunk.kind, chunk.data@);
            proof {
                let sided = writing::side(next, before);
                assert(sided.drop_last() =~= writing::side(so_far, before));
                assert(writing::chunks_bytes(sided) == done + here);
            }
            write_chunk(output, &chunk.kind, chunk.data.as_slice(), crc);
            assert(output@ =~= start + (done + here));
        }
    }
}

/// Each chunk of a list that can be written can be.
proof fn lemma_checked_prefix(chunks: Seq<common::ChunkView>, i: int)
    requires
        writing::chunks_checked(chunks) is Ok,
        0 <= i < chunks.len(),
    ensures
        chunks[i].checked() is Ok,
    decreases chunks.len(),
{
    if i < chunks.len() - 1 {
        lemma_checked_prefix(chunks.drop_last(), i);
    }
}

/// Appends a chunk if there is something to put in it.
fn write_optional(output: &mut Vec<u8>, kind: &[u8; 4], data: &Option<Vec<u8>>, crc: &mut Crc32)
    requires
        data matches Some(bytes) ==> bytes@.len() <= common::MAX_CHUNK_BYTES,
    ensures
        final(output)@ == old(output)@ + writing::optional_chunk(*kind, common::optional(*data)),
{
    match data {
        Some(bytes) => {
            write_chunk(output, kind, bytes.as_slice(), crc);
        },
        None => {
            assert(output@ =~= output@ + Seq::<u8>::empty());
        },
    }
}

/// The signature and the header chunk.
pub open spec fn opening_bytes(info: InfoView) -> Seq<u8> {
    SIGNATURE@ + writing::chunk_bytes(common::IHDR, writing::ihdr_payload(info))
}

/// Appends the signature and `IHDR`.
fn write_opening(output: &mut Vec<u8>, info: &Info, crc: &mut Crc32)
    ensures
        final(output)@ == old(output)@ + opening_bytes(info@),
{
    let ghost start = output@;
    let width: [u8; 4] = be_array(info.width);
    let height: [u8; 4] = be_array(info.height);
    let header: [u8; 13] = [
        width[0],
        width[1],
        width[2],
        width[3],
        height[0],
        height[1],
        height[2],
        height[3],
        info.bit_depth.bits() as u8,
        info.color_type.to_byte(),
        // Compression method: deflate.
        0,
        // Filter method: the five adaptive filters.
        0,
        // Interlace method: none.
        0,
    ];
    assert(header@ =~= writing::ihdr_payload(info@));
    output.extend_from_slice(&SIGNATURE);
    write_chunk(output, &common::IHDR, &header, crc);
    assert(output@ =~= start + opening_bytes(info@));
}

/// Appends the signature and every chunk that precedes the image data.
///
/// Metadata is written in the order it was given, split around `PLTE`: the types that the
/// format puts before the palette go ahead of it, and everything else goes after it, which is
/// where the types that must follow `PLTE` need to be and is legal for the rest.
#[verifier::rlimit(30)]
fn write_leading_chunks(output: &mut Vec<u8>, info: &Info, crc: &mut Crc32)
    requires
        writing::chunks_checked(info@.metadata) is Ok,
        info@.palette matches Some(bytes) ==> bytes.len() <= 768,
        info@.transparency matches Some(bytes) ==> bytes.len() <= 256,
    ensures
        final(output)@ == old(output)@ + writing::leading_bytes(info@),
{
    write_opening(output, info, crc);
    write_metadata(output, info, true, crc);
    write_optional(output, &common::PLTE, &info.palette, crc);
    write_optional(output, &common::TRNS, &info.transparency, crc);
    write_metadata(output, info, false, crc);
    assert(output@ =~= old(output)@ + writing::leading_bytes(info@));
}

/// Checks that an image can be written.
fn check_image(info: &Info, data: &[u8]) -> (result: Result<(), Error>)
    ensures
        result == writing::writable(info@, data@),
{
    match info.validate() {
        Ok(()) => {},
        Err(error) => {
            return Err(error);
        },
    }
    proof {
        common::lemma_sizes(info@);
    }
    if data.len() != info.output_size() {
        return Err(
            Error::WrongBufferSize { expected: info.output_size(), found: data.len() },
        );
    }
    if info.color_type == ColorType::Indexed && info.palette.is_none() {
        return Err(Error::MissingPalette);
    }
    if let Some(palette) = &info.palette {
        if palette.len() > 256 * 3 || palette.len() % 3 != 0 {
            return Err(
                Error::InvalidChunkLength { chunk: common::PLTE, length: palette.len() },
            );
        }
    }
    if let Some(transparency) = &info.transparency {
        match validate_trns(info, transparency.as_slice()) {
            Ok(()) => {},
            Err(error) => {
                return Err(error);
            },
        }
    }
    let ghost all = info@.metadata;
    let count: usize = info.metadata.len();
    let ghost want = writing::writable(info@, data@);
    assert(want == writing::chunks_checked(all));
    assert(all.take(0) =~= Seq::empty());
    for i in 0..count
        invariant
            count == info.metadata@.len() == all.len(),
            all == info@.metadata,
            want == writing::writable(info@, data@),
            want == writing::chunks_checked(all),
            writing::chunks_checked(all.take(i as int)) is Ok,
    {
        let chunk: &Chunk = &info.metadata[i];
        proof {
            assert(all.take(i + 1).drop_last() =~= all.take(i as int));
            assert(all.take(i + 1).last() == chunk@);
        }
        match chunk.validate() {
            Ok(()) => {},
            Err(error) => {
                proof {
                    lemma_refused(all, i + 1);
                }
                return Err(error);
            },
        }
    }
    assert(all.take(count as int) =~= all);
    Ok(())
}

/// A list whose front is refused is refused for the same reason.
proof fn lemma_refused(chunks: Seq<common::ChunkView>, n: int)
    requires
        0 <= n <= chunks.len(),
        writing::chunks_checked(chunks.take(n)) is Err,
    ensures
        writing::chunks_checked(chunks) == writing::chunks_checked(chunks.take(n)),
    decreases chunks.len(),
{
    if n == chunks.len() {
        assert(chunks.take(n) =~= chunks);
    } else {
        assert(chunks.drop_last().take(n) =~= chunks.take(n));
        lemma_refused(chunks.drop_last(), n);
    }
}

// ---------------------------------------------------------------------------------------
// Bands
// ---------------------------------------------------------------------------------------

/// Appends the type byte of a filter and the residuals it leaves of a row.
fn append_record<const BPP: usize>(
    filtered: &mut Vec<u8>,
    choice: Filter,
    previous: &[u8],
    row: &[u8],
)
    requires
        BPP >= 1,
        previous@.len() == row@.len(),
        old(filtered)@.len() + 1 + row@.len() <= usize::MAX,
    ensures
        final(filtered)@ == old(filtered)@ + (seq![filter::filter_byte(choice)]
            + filter::filtered(choice, BPP as nat, previous@, row@)),
{
    let base: usize = filtered.len();
    filtered.push(choice.to_byte());
    filtered.resize(base + 1 + row.len(), 0);
    let (head, rest) = filtered.as_mut_slice().split_at_mut(base + 1);
    filter_row::<BPP>(choice, previous, row, rest);
    assert(head@ + rest@ =~= old(filtered)@ + (seq![filter::filter_byte(choice)]
        + filter::filtered(choice, BPP as nat, previous@, row@)));
}

/// Filters row `index` onto the end of `filtered`, carrying the filter choice.
fn filter_one<const BPP: usize>(
    filtered: &mut Vec<u8>,
    zero_row: &[u8],
    data: &[u8],
    row_bytes: usize,
    index: usize,
    strategy: FilterStrategy,
    chosen: &mut Filter,
    Ghost(info): Ghost<InfoView>,
)
    requires
        BPP == info.stride(),
        1 <= BPP <= 8,
        row_bytes == info.row_bytes(),
        row_bytes <= selection::MAX_ROW_BYTES,
        data@.len() == info.output_size(),
        zero_row@ == common::zeros(row_bytes as nat),
        index < info.height,
        old(filtered)@.len() + 1 + row_bytes <= usize::MAX,
        *old(chosen) == (if index == 0 {
            Filter::Raw
        } else {
            writing::row_filter(info, data@, strategy, index - 1)
        }),
    ensures
        final(filtered)@ == old(filtered)@ + writing::record(info, data@, strategy, index as int),
        *final(chosen) == writing::row_filter(info, data@, strategy, index as int),
{
    let size: usize = data.len();
    proof {
        interlace::lemma_row_place(index as int, info.height as int, row_bytes as int);
        if index > 0 {
            interlace::lemma_row_place(index - 1, info.height as int, row_bytes as int);
        }
    }
    let at: usize = index * row_bytes;
    let row: &[u8] = &data[at..at + row_bytes];
    assert(row@ =~= writing::image_row(info, data@, index as int));
    let previous: &[u8] = if index == 0 {
        zero_row
    } else {
        &data[(index - 1) * row_bytes..at]
    };
    assert(previous@ =~= writing::image_row_above(info, data@, index as int));
    let choice: Filter = selection::select::<BPP>(strategy, previous, row, *chosen);
    *chosen = choice;
    append_record::<BPP>(filtered, choice, previous, row);
}

/// Filters the rows `first..past` into `filtered`, carrying the filter choice.
fn filter_rows<const BPP: usize>(
    filtered: &mut Vec<u8>,
    zero_row: &[u8],
    data: &[u8],
    row_bytes: usize,
    first: usize,
    past: usize,
    strategy: FilterStrategy,
    chosen: &mut Filter,
    Ghost(info): Ghost<InfoView>,
)
    requires
        info.checked() is Ok,
        BPP == info.stride(),
        1 <= BPP <= 8,
        row_bytes == info.row_bytes(),
        data@.len() == info.output_size(),
        zero_row@ == common::zeros(row_bytes as nat),
        first <= past <= info.height,
        *old(chosen) == (if first == 0 {
            Filter::Raw
        } else {
            writing::row_filter(info, data@, strategy, first - 1)
        }),
    ensures
        final(filtered)@ == writing::records(info, data@, strategy, first as int, past as int),
        *final(chosen) == (if past == 0 {
            Filter::Raw
        } else {
            writing::row_filter(info, data@, strategy, past - 1)
        }),
{
    filtered.clear();
    proof {
        common::lemma_sizes(info);
        lemma_row_bound(info);
    }
    let size: usize = data.len();
    for index in first..past
        invariant
            info.checked() is Ok,
            BPP == info.stride(),
            1 <= BPP <= 8,
            row_bytes == info.row_bytes(),
            row_bytes <= selection::MAX_ROW_BYTES,
            data@.len() == size == info.output_size(),
            info.sequential_size() <= usize::MAX,
            info.output_size() + info.height == info.sequential_size(),
            zero_row@ == common::zeros(row_bytes as nat),
            first <= index <= past <= info.height,
            filtered@ == writing::records(info, data@, strategy, first as int, index as int),
            filtered@.len() == (index - first) * (1 + row_bytes),
            *chosen == (if index == 0 {
                Filter::Raw
            } else {
                writing::row_filter(info, data@, strategy, index - 1)
            }),
    {
        proof {
            lemma_record_len(info, data@, strategy, index as int);
            assert((index - first + 1) * (1 + row_bytes) == (index - first) * (1 + row_bytes) + 1
                + row_bytes) by (nonlinear_arith);
            assert((index - first + 1) * (1 + row_bytes) <= (1 + row_bytes) * info.height)
                by (nonlinear_arith)
                requires
                    0 <= index - first,
                    index - first + 1 <= info.height,
            ;
        }
        filter_one::<BPP>(filtered, zero_row, data, row_bytes, index, strategy, chosen, Ghost(info));
    }
}

/// A filtered row takes one byte more than the row.
pub proof fn lemma_record_len(info: InfoView, data: Seq<u8>, strategy: FilterStrategy, y: int)
    requires
        info.row_bytes() >= 0,
        data.len() == info.output_size(),
        0 <= y < info.height,
    ensures
        writing::record(info, data, strategy, y).len() == 1 + info.row_bytes(),
{
    interlace::lemma_row_place(y, info.height as int, info.row_bytes());
}

/// No scanline of an image is longer than the widest possible.
proof fn lemma_row_bound(info: InfoView)
    ensures
        0 <= info.row_bytes() <= selection::MAX_ROW_BYTES,
{
    common::lemma_bits(info);
    let w = info.width as int;
    let b = info.bits();
    assert(0 <= w * b <= 0xffff_ffff * 64) by (nonlinear_arith)
        requires
            0 <= w <= 0xffff_ffff,
            1 <= b <= 64,
    ;
}

/// Filters the rows `first..past` into `filtered`, carrying the filter choice.
fn filter_band(
    filtered: &mut Vec<u8>,
    zero_row: &[u8],
    info: &Info,
    data: &[u8],
    first: usize,
    past: usize,
    strategy: FilterStrategy,
    chosen: &mut Filter,
)
    requires
        info@.checked() is Ok,
        data@.len() == info@.output_size(),
        zero_row@ == common::zeros(info@.row_bytes() as nat),
        first <= past <= info.height,
        *old(chosen) == (if first == 0 {
            Filter::Raw
        } else {
            writing::row_filter(info@, data@, strategy, first - 1)
        }),
    ensures
        final(filtered)@ == writing::records(info@, data@, strategy, first as int, past as int),
        *final(chosen) == (if past == 0 {
            Filter::Raw
        } else {
            writing::row_filter(info@, data@, strategy, past - 1)
        }),
{
    proof {
        common::lemma_sizes(info@);
        common::lemma_bits(info@);
    }
    let ghost view = info@;
    let row_bytes: usize = info.row_bytes();
    let stride: usize = info.filter_stride();
    if stride == 1 {
        filter_rows::<1>(filtered, zero_row, data, row_bytes, first, past, strategy, chosen, Ghost(view));
    } else if stride == 2 {
        filter_rows::<2>(filtered, zero_row, data, row_bytes, first, past, strategy, chosen, Ghost(view));
    } else if stride == 3 {
        filter_rows::<3>(filtered, zero_row, data, row_bytes, first, past, strategy, chosen, Ghost(view));
    } else if stride == 4 {
        filter_rows::<4>(filtered, zero_row, data, row_bytes, first, past, strategy, chosen, Ghost(view));
    } else if stride == 6 {
        filter_rows::<6>(filtered, zero_row, data, row_bytes, first, past, strategy, chosen, Ghost(view));
    } else {
        filter_rows::<8>(filtered, zero_row, data, row_bytes, first, past, strategy, chosen, Ghost(view));
    }
}

/// The bands of an image cover its rows one after the other.
pub proof fn lemma_bands(info: InfoView, n: int)
    requires
        info.checked() is Ok,
        0 <= n < writing::band_count(info),
    ensures
        writing::band_rows(info) >= 1,
        writing::band_start(info, n) == n * writing::band_rows(info),
        writing::band_start(info, n) < info.height,
        writing::band_start(info, n + 1) <= info.height,
        writing::band_start(info, n + 1) == (if writing::band_start(info, n) + writing::band_rows(
            info,
        ) < info.height {
            writing::band_start(info, n) + writing::band_rows(info)
        } else {
            info.height as int
        }),
        writing::band_start(info, n) < writing::band_start(info, n + 1),
        writing::band_start(info, n + 1) == info.height <==> n + 1 == writing::band_count(info),
{
    let rows = writing::band_rows(info);
    let h = info.height as int;
    let count = writing::band_count(info);
    lemma_fundamental_div_mod(h + rows - 1, rows);
    lemma_mul_is_commutative(count, rows);
    lemma_mul_is_distributive_add_other_way(rows, n, 1);
    lemma_mul_inequality(n + 1, count, rows);
    if n + 1 < count {
        lemma_mul_inequality(n + 2, count, rows);
        lemma_mul_is_distributive_add_other_way(rows, n + 1, 1);
    }
}

proof fn lemma_number_local(a: Seq<bool>, b: Seq<bool>, i: int, n: nat)
    requires
        forall|k: int| i <= k < i + n ==> a[k] == b[k],
    ensures
        encoding::number(a, i, n) == encoding::number(b, i, n),
    decreases n,
{
    if n > 0 {
        lemma_number_local(a, b, i, (n - 1) as nat);
    }
}

/// More bits leave the bytes that are full already as they are.
proof fn lemma_whole_prefix(bits: Seq<bool>, new: Seq<bool>)
    ensures
        encoding::whole_bytes(bits + new) == encoding::whole_bytes(bits) + encoding::whole_bytes(
            bits + new,
        ).skip((bits.len() / 8) as int),
{
    let all = bits + new;
    assert forall|i: int| 0 <= i < bits.len() / 8 implies encoding::whole_bytes(all)[i]
        == encoding::whole_bytes(bits)[i] by {
        lemma_number_local(all, bits, 8 * i, 8);
    }
    assert(encoding::whole_bytes(all) =~= encoding::whole_bytes(bits) + encoding::whole_bytes(
        all,
    ).skip((bits.len() / 8) as int));
}

/// A stream that has not ended is the beginning of the whole.
proof fn lemma_so_far(pieces: Seq<Seq<u8>>, n: nat, m: nat)
    requires
        n <= m < pieces.len(),
    ensures
        exists|new: Seq<bool>|
            encoding::after_pieces(pieces, m).bits == encoding::after_pieces(pieces, n).bits + new,
    decreases m,
{
    let start = encoding::after_pieces(pieces, n).bits;
    if n == m {
        assert(start =~= start + Seq::<bool>::empty());
    } else {
        let k = (m - 1) as nat;
        lemma_so_far(pieces, n, k);
        let before = encoding::after_pieces(pieces, k);
        let new = choose|new: Seq<bool>| before.bits == start + new;
        let piece = pieces[k as int];
        if piece.len() != 0 {
            let more = encoding::deflate_bits(before.state, piece, false, before.bits.len() as int);
            assert(encoding::after_pieces(pieces, m).bits =~= start + (new + more));
        } else {
            assert(encoding::after_pieces(pieces, m).bits == start + new);
        }
    }
}

/// What a stream has become after `n` pieces is what the whole of it begins with.
proof fn lemma_stream_prefix(pieces: Seq<Seq<u8>>, n: nat)
    requires
        n < pieces.len(),
    ensures
        encoding::so_far(encoding::after_pieces(pieces, n)).is_prefix_of(encoding::zlib_of_pieces(pieces)),
{
    let m = (pieces.len() - 1) as nat;
    lemma_so_far(pieces, n, m);
    let start = encoding::after_pieces(pieces, n).bits;
    let before = encoding::after_pieces(pieces, m);
    let new = choose|new: Seq<bool>| before.bits == start + new;
    let whole = encoding::pushed(before, pieces[m as int], true);
    let last = encoding::deflate_bits(
        before.state,
        pieces[m as int],
        true,
        before.bits.len() as int,
    );
    let pad = encoding::zero_bits(bits::padding(whole.bits.len() as int) as nat);
    assert(encoding::aligned(whole.bits) =~= start + (new + last + pad));
    lemma_whole_prefix(start, new + last + pad);
    let z = encoding::zlib_of_pieces(pieces);
    let part = encoding::so_far(encoding::after_pieces(pieces, n));
    assert(part =~= z.subrange(0, part.len() as int));
}

/// Full chunks depend only on the data in them.
proof fn lemma_full_chunks(a: Seq<u8>, b: Seq<u8>, n: int)
    requires
        0 <= n,
        n * IDAT_CHUNK_BYTES <= a.len(),
        a.is_prefix_of(b),
    ensures
        writing::full_chunks(a, n) == writing::full_chunks(b, n),
    decreases n,
{
    if n > 0 {
        lemma_full_chunks(a, b, n - 1);
        let from = (n - 1) * IDAT_CHUNK_BYTES;
        let to = n * IDAT_CHUNK_BYTES;
        assert forall|i: int| 0 <= i < a.len() implies a[i] == b[i] by {
            assert(a[i] == b.subrange(0, a.len() as int)[i]);
        }
        assert(a.subrange(from, to) =~= b.subrange(from, to));
    }
}

/// The full `IDAT` chunks number `from` to `to` of compressed data.
spec fn chunks_between(packed: Seq<u8>, from: int, to: int) -> Seq<u8>
    decreases to - from,
{
    if to <= from {
        Seq::empty()
    } else {
        chunks_between(packed, from, to - 1) + writing::chunk_bytes(
            common::IDAT,
            packed.subrange((to - 1) * IDAT_CHUNK_BYTES, to * IDAT_CHUNK_BYTES),
        )
    }
}

proof fn lemma_chunks_between(packed: Seq<u8>, from: int, to: int)
    requires
        0 <= from <= to,
    ensures
        writing::full_chunks(packed, to) == writing::full_chunks(packed, from) + chunks_between(
            packed,
            from,
            to,
        ),
    decreases to - from,
{
    let front = writing::full_chunks(packed, from);
    if from == to {
        assert(front =~= front + Seq::<u8>::empty());
    } else {
        lemma_chunks_between(packed, from, to - 1);
        let last = writing::chunk_bytes(
            common::IDAT,
            packed.subrange((to - 1) * IDAT_CHUNK_BYTES, to * IDAT_CHUNK_BYTES),
        );
        let between = chunks_between(packed, from, to - 1);
        assert(front + between + last =~= front + (between + last));
    }
}

/// Full chunks of the beginning of the compressed data begin the chunks of all of it.
proof fn lemma_chunks_begin(part: Seq<u8>, whole: Seq<u8>, n: int)
    requires
        0 <= n,
        n * IDAT_CHUNK_BYTES <= part.len(),
        part.is_prefix_of(whole),
    ensures
        writing::full_chunks(part, n).is_prefix_of(writing::idat_bytes(whole)),
{
    let m = whole.len() as int / IDAT_CHUNK_BYTES as int;
    lemma_full_chunks(part, whole, n);
    assert(n <= m);
    lemma_chunks_between(whole, n, m);
    let front = writing::full_chunks(whole, n);
    let more = chunks_between(whole, n, m);
    let all = writing::idat_bytes(whole);
    let rest = whole.skip(m * IDAT_CHUNK_BYTES);
    if rest.len() != 0 {
        assert(all =~= front + (more + writing::chunk_bytes(common::IDAT, rest)));
    } else {
        assert(all =~= front + more);
    }
    assert(front =~= all.subrange(0, front.len() as int));
}

/// Appends every full chunk of the compressed data that is held, and keeps the rest.
///
/// `packed` is all the compressed data so far, and `sent` counts the chunks written before.
fn write_full_chunks(
    output: &mut Vec<u8>,
    idat: &mut Vec<u8>,
    crc: &mut Crc32,
    Ghost(packed): Ghost<Seq<u8>>,
    Ghost(sent): Ghost<int>,
)
    requires
        0 <= sent,
        sent * IDAT_CHUNK_BYTES <= packed.len(),
        old(idat)@ == packed.skip(sent * IDAT_CHUNK_BYTES),
    ensures
        ({
            let n = packed.len() as int / IDAT_CHUNK_BYTES as int;
            &&& final(idat)@ == packed.skip(n * IDAT_CHUNK_BYTES)
            &&& final(output)@ == old(output)@ + chunks_between(packed, sent, n)
        }),
{
    let total: usize = idat.len();
    let mut at: usize = 0;
    let ghost start = output@;
    let ghost mut done: int = sent;
    let ghost n = packed.len() as int / IDAT_CHUNK_BYTES as int;
    assert(start =~= start + chunks_between(packed, sent, sent));
    while total - at >= IDAT_CHUNK_BYTES
        invariant
            at <= total == idat@.len(),
            idat@ == packed.skip(sent * IDAT_CHUNK_BYTES),
            0 <= sent <= done,
            sent * IDAT_CHUNK_BYTES <= packed.len(),
            at == (done - sent) * IDAT_CHUNK_BYTES,
            n == packed.len() as int / IDAT_CHUNK_BYTES as int,
            output@ == start + chunks_between(packed, sent, done),
        decreases total - at,
    {
        let piece: &[u8] = &idat.as_slice()[at..at + IDAT_CHUNK_BYTES];
        proof {
            assert(piece@ =~= packed.subrange(
                done * IDAT_CHUNK_BYTES,
                (done + 1) * IDAT_CHUNK_BYTES,
            ));
        }
        write_chunk(output, &common::IDAT, piece, crc);
        at = at + IDAT_CHUNK_BYTES;
        proof {
            assert(output@ =~= start + chunks_between(packed, sent, done + 1));
            done = done + 1;
        }
    }
    // Every full chunk goes out before anything is moved, so the band costs one compaction of
    // the short tail rather than one per chunk.
    let tail: Vec<u8> = idat.split_off(at);
    *idat = tail;
    proof {
        assert(done == n);
        assert(idat@ =~= packed.skip(n * IDAT_CHUNK_BYTES));
    }
}

/// One more piece of a stream, and the bytes it adds.
proof fn lemma_pushed(before: encoding::Progress, piece: Seq<u8>)
    ensures
        ({
            let now = encoding::pushed(before, piece, false);
            encoding::so_far(now) == encoding::so_far(before) + encoding::whole_bytes(now.bits).skip(
                (before.bits.len() / 8) as int,
            )
        }),
        ({
            let now = encoding::pushed(before, piece, true);
            encoding::finished(now) == encoding::so_far(before) + (encoding::whole_bytes(
                encoding::aligned(now.bits),
            ).skip((before.bits.len() / 8) as int) + encoding::be_bytes(
                adler32::checksum(now.data),
            ))
        }),
{
    let kept = (before.bits.len() / 8) as int;
    let now = encoding::pushed(before, piece, false);
    if piece.len() == 0 {
        lemma_whole_prefix(before.bits, Seq::empty());
        assert(before.bits + Seq::<bool>::empty() =~= before.bits);
    } else {
        let new = encoding::deflate_bits(before.state, piece, false, before.bits.len() as int);
        lemma_whole_prefix(before.bits, new);
    }
    assert(encoding::so_far(now) =~= encoding::so_far(before) + encoding::whole_bytes(now.bits).skip(kept));
    let end = encoding::pushed(before, piece, true);
    let new = encoding::deflate_bits(before.state, piece, true, before.bits.len() as int);
    let pad = encoding::zero_bits(bits::padding(end.bits.len() as int) as nat);
    assert(encoding::aligned(end.bits) =~= before.bits + (new + pad));
    lemma_whole_prefix(before.bits, new + pad);
    assert(encoding::finished(end) =~= encoding::so_far(before) + (encoding::whole_bytes(
        encoding::aligned(end.bits),
    ).skip(kept) + encoding::be_bytes(adler32::checksum(end.data))));
}

/// More compressed data behind what is held.
proof fn lemma_held(packed: Seq<u8>, held: Seq<u8>, added: Seq<u8>, at: int)
    requires
        0 <= at <= packed.len(),
        held == packed.skip(at),
    ensures
        held + added == (packed + added).skip(at),
        packed.is_prefix_of(packed + added),
{
    assert(held + added =~= (packed + added).skip(at));
    assert(packed =~= (packed + added).subrange(0, packed.len() as int));
}

/// How far an encoding has come.
#[derive(Clone, Copy, PartialEq, Eq, Debug, Structural)]
enum Stage {
    /// Nothing was produced yet.
    Opening,
    /// Everything in front of the image data was produced.
    Bands,
    /// The file is complete.
    Complete,
}

/// An image that is being encoded, a part of the file at a time.
///
/// Made by [`Encoder::start`] and driven by [`Encoder::next_part`].
pub struct Encoding<'a> {
    info: &'a Info,
    data: &'a [u8],
    strategy: FilterStrategy,
    stage: Stage,
    stream: ZlibStream,
    /// An all-zero row, standing in for the row above the first one.
    zero_row: Vec<u8>,
    /// Compressed bytes not yet long enough to fill an `IDAT`.
    idat: Vec<u8>,
    /// The filter of the last row.
    ///
    /// The filter choice is sticky from one row to the next, and that has to survive a band
    /// boundary or the bands would each restart the heuristic.
    chosen: Filter,
    /// The first row that was not compressed yet.
    first: usize,
    /// How many bands were compressed.
    bands: Ghost<nat>,
    /// The compressed data so far.
    packed: Ghost<Seq<u8>>,
    /// How many full `IDAT` chunks were produced.
    sent: Ghost<int>,
}

impl<'a> Encoding<'a> {
    /// The filtered bands of the image.
    spec fn pieces(&self) -> Seq<Seq<u8>> {
        writing::bands(self.info@, self.data@, self.strategy)
    }

    /// The compressed data with one more band behind it.
    spec fn packed_next(&self) -> Seq<u8> {
        let next = (self.bands@ + 1) as nat;
        if next == writing::band_count(self.info@) {
            encoding::zlib_of_pieces(self.pieces())
        } else {
            encoding::so_far(encoding::after_pieces(self.pieces(), next))
        }
    }

    /// The file that is being produced.
    pub closed spec fn whole(&self) -> Seq<u8> {
        writing::file_bytes(self.info@, self.data@, self.strategy)
    }

    /// The part of the file that was produced so far.
    pub closed spec fn produced(&self) -> Seq<u8> {
        match self.stage {
            Stage::Opening => Seq::empty(),
            Stage::Bands => writing::leading_bytes(self.info@) + writing::full_chunks(
                self.packed@,
                self.sent@,
            ),
            Stage::Complete => self.whole(),
        }
    }

    /// The image that is being encoded: its description, its data, and how filters are chosen.
    pub closed spec fn image(&self) -> (InfoView, Seq<u8>, FilterStrategy) {
        (self.info@, self.data@, self.strategy)
    }

    /// How many parts were produced.
    pub closed spec fn parts(&self) -> nat {
        match self.stage {
            Stage::Opening => 0,
            Stage::Bands => 1 + self.bands@,
            Stage::Complete => (1 + writing::band_count(self.info@)) as nat,
        }
    }

    /// Whether the parts that were produced are the first parts of the file.
    pub open spec fn in_step(&self) -> bool {
        let (info, data, strategy) = self.image();
        &&& self.whole() == writing::file_bytes(info, data, strategy)
        &&& self.produced() == writing::parts_bytes(info, data, strategy, self.parts())
    }

    proof fn lemma_in_step(&self)
        requires
            self.wf(),
        ensures
            self.in_step(),
    {
        lemma_first_band(self.info@);
    }

    /// How many parts are still to come.
    pub closed spec fn remaining(&self) -> nat {
        match self.stage {
            Stage::Opening => (1 + writing::band_count(self.info@)) as nat,
            Stage::Bands => (writing::band_count(self.info@) - self.bands@) as nat,
            Stage::Complete => 0,
        }
    }

    /// Whether what is held goes with what was produced. Every encoding made by
    /// [`Encoder::start`] does, and every call keeps it so.
    pub closed spec fn wf(&self) -> bool {
        &&& writing::writable(self.info@, self.data@) is Ok
        &&& self.stage !is Complete ==> self.in_progress()
    }

    /// The state between two bands.
    spec fn in_progress(&self) -> bool {
        &&& self.zero_row@ == common::zeros(self.info@.row_bytes() as nat)
        &&& self.bands@ < writing::band_count(self.info@)
        &&& self.stage is Opening ==> self.bands@ == 0 && self.sent@ == 0
        &&& self.first == writing::band_start(self.info@, self.bands@ as int)
        &&& self.stream.wf()
        &&& self.stream.progress() == encoding::after_pieces(self.pieces(), self.bands@)
        &&& self.packed@ == encoding::so_far(self.stream.progress())
        &&& self.chosen == (if self.first == 0 {
            Filter::Raw
        } else {
            writing::row_filter(self.info@, self.data@, self.strategy, self.first - 1)
        })
        &&& self.sent@ == self.packed@.len() as int / IDAT_CHUNK_BYTES as int
        &&& self.idat@ == self.packed@.skip(self.sent@ * IDAT_CHUNK_BYTES)
    }
}

/// A reusable PNG encoder.
#[derive(Debug)]
pub struct Encoder {
    deflater: Deflater,
    strategy: FilterStrategy,
    /// Filter bytes and filtered scanlines for the band being compressed.
    filtered: Vec<u8>,
    /// The checksum of the chunk being written.
    crc: Crc32,
}

impl Default for Encoder {
    fn default() -> (encoder: Self)
        ensures
            encoder.strategy() is Sampled,
    {
        Self::new()
    }
}

impl Encoder {
    /// How filters are chosen.
    pub closed spec fn strategy(&self) -> FilterStrategy {
        self.strategy
    }

    /// An encoder with the default filter strategy.
    ///
    /// It holds the Huffman tables and scratch buffers, so encoding a second image through
    /// the same one costs no allocation for them.
    pub fn new() -> (encoder: Self)
        ensures
            encoder.strategy() is Sampled,
    {
        Self {
            deflater: Deflater::new(),
            strategy: FilterStrategy::default(),
            filtered: Vec::new(),
            crc: Crc32::new(),
        }
    }

    /// Sets how scanline filters are chosen. See [`FilterStrategy`].
    pub fn filter(&mut self, strategy: FilterStrategy) -> (result: &mut Self)
        ensures
            result.strategy() == strategy,
            *final(self) == *final(result),
    {
        self.strategy = strategy;
        self
    }

    /// Encodes `data` as a PNG appended to `output`.
    ///
    /// `data` must be `info.output_size()` bytes in the layout `info` describes: tightly
    /// packed scanlines with no filter bytes. Interlaced output is not produced; an `info`
    /// asking for it is encoded progressively-free instead, which any decoder reads
    /// identically.
    ///
    /// See [`Encoder::start`] to write somewhere other than memory.
    #[verifier::rlimit(30)]
    pub fn encode(&mut self, info: &Info, data: &[u8], output: &mut Vec<u8>) -> (result: Result<
        (),
        Error,
    >)
        ensures
            final(self).strategy() == old(self).strategy(),
            match writing::encoded(info@, data@, old(self).strategy()) {
                Ok(bytes) => result is Ok && final(output)@ == old(output)@ + bytes,
                Err(error) => result == Err::<(), Error>(error) && final(output)@ == old(output)@,
            },
    {
        let mut encoding = match self.start(info, data) {
            Ok(encoding) => encoding,
            Err(error) => {
                return Err(error);
            },
        };
        let ghost strategy = self.strategy;
        let ghost start = output@;
        let ghost whole = encoding.whole();
        assert(start + encoding.produced() =~= start);
        let mut more: bool = true;
        while more
            invariant
                encoding.wf(),
                encoding.whole() == whole,
                self.strategy == strategy,
                output@ == start + encoding.produced(),
                !more ==> encoding.produced() == whole,
            decreases encoding.remaining(), more as int,
        {
            more = self.next_part(&mut encoding, output);
            assert(output@ =~= start + encoding.produced());
        }
        Ok(())
    }

    /// Starts encoding `data` as a PNG that is produced in parts.
    ///
    /// The image is filtered and compressed a band at a time and the compressed bytes leave
    /// as they are produced, so neither the finished file nor a filtered copy of the image is
    /// ever resident. Peak working memory is a band, a scanline and a chunk: a few hundred
    /// kilobytes for ordinary images. It grows with the image's width but not with its
    /// height, against the whole encoded file for [`Encoder::encode`].
    ///
    /// Nothing is produced until `info` and `data` have been checked, so an image that is
    /// refused leaves its destination untouched. A destination that fails later holds the
    /// beginning of the file.
    pub fn start<'a>(&mut self, info: &'a Info, data: &'a [u8]) -> (result: Result<
        Encoding<'a>,
        Error,
    >)
        ensures
            final(self).strategy() == old(self).strategy(),
            match result {
                Ok(encoding) => {
                    &&& encoding.wf()
                    &&& encoding.in_step()
                    &&& encoding.image() == (info@, data@, old(self).strategy())
                    &&& encoding.parts() == 0
                    &&& encoding.produced() == Seq::<u8>::empty()
                    &&& writing::encoded(info@, data@, old(self).strategy()) == Ok::<
                        Seq<u8>,
                        Error,
                    >(encoding.whole())
                },
                Err(error) => writing::encoded(info@, data@, old(self).strategy()) == Err::<
                    Seq<u8>,
                    Error,
                >(error),
            },
    {
        match check_image(info, data) {
            Ok(()) => {},
            Err(error) => {
                return Err(error);
            },
        }
        proof {
            common::lemma_sizes(info@);
            lemma_first_band(info@);
        }
        let row_bytes: usize = info.row_bytes();
        let mut zero_row: Vec<u8> = Vec::new();
        zero_row.resize(row_bytes, 0);
        let mut idat: Vec<u8> = Vec::new();
        let stream = self.deflater.zlib_start(&mut idat);
        let encoding = Encoding {
            info,
            data,
            strategy: self.strategy,
            stage: Stage::Opening,
            stream,
            zero_row,
            idat,
            chosen: Filter::Raw,
            first: 0,
            bands: Ghost(0),
            packed: Ghost(encoding::so_far(encoding::started())),
            sent: Ghost(0),
        };
        proof {
            assert(encoding.zero_row@ =~= common::zeros(row_bytes as nat));
            assert(encoding.packed@ =~= encoding.idat@);
            assert(encoding.packed@.skip(0) =~= encoding.packed@);
            encoding.lemma_in_step();
        }
        Ok(encoding)
    }

    /// Appends the next part of the file to `output`, or says that there is none.
    ///
    /// The first part is everything in front of the image data. Each further part is what one
    /// band completes, which may be nothing, and the last brings the end of the file.
    pub fn next_part(&mut self, encoding: &mut Encoding<'_>, output: &mut Vec<u8>) -> (more: bool)
        requires
            old(encoding).wf(),
        ensures
            final(self).strategy() == old(self).strategy(),
            final(encoding).wf(),
            final(encoding).in_step(),
            final(encoding).image() == old(encoding).image(),
            final(encoding).parts() == old(encoding).parts() + (if more {
                1nat
            } else {
                0
            }),
            final(encoding).whole() == old(encoding).whole(),
            final(encoding).produced().is_prefix_of(final(encoding).whole()),
            old(encoding).produced().is_prefix_of(final(encoding).produced()),
            final(output)@ == old(output)@ + final(encoding).produced().skip(
                old(encoding).produced().len() as int,
            ),
            more ==> final(encoding).remaining() < old(encoding).remaining(),
            !more ==> {
                &&& final(encoding).produced() == final(encoding).whole()
                &&& final(encoding).remaining() == old(encoding).remaining()
            },
    {
        match encoding.stage {
            Stage::Opening => {
                write_leading_chunks(output, encoding.info, &mut self.crc);
                encoding.stage = Stage::Bands;
                proof {
                    let leading = writing::leading_bytes(encoding.info@);
                    assert(encoding.produced() =~= leading);
                    assert(leading =~= encoding.whole().subrange(0, leading.len() as int));
                    assert(encoding.produced().skip(0) =~= leading);
                    encoding.lemma_in_step();
                }
                true
            },
            Stage::Bands => {
                self.next_band(encoding, output);
                proof {
                    encoding.lemma_in_step();
                }
                true
            },
            Stage::Complete => {
                proof {
                    let whole = encoding.whole();
                    assert(whole =~= whole.subrange(0, whole.len() as int));
                    assert(output@ =~= output@ + whole.skip(whole.len() as int));
                    encoding.lemma_in_step();
                }
                false
            },
        }
    }

    /// Filters and compresses the next band, and says whether it is the last.
    #[verifier::rlimit(40)]
    fn push_band(&mut self, encoding: &mut Encoding<'_>) -> (last: bool)
        requires
            old(encoding).wf(),
            old(encoding).stage is Bands,
        ensures
            final(self).strategy == old(self).strategy,
            final(encoding).info == old(encoding).info,
            final(encoding).data == old(encoding).data,
            final(encoding).strategy == old(encoding).strategy,
            final(encoding).stage == old(encoding).stage,
            final(encoding).zero_row == old(encoding).zero_row,
            final(encoding).bands == old(encoding).bands,
            final(encoding).packed == old(encoding).packed,
            final(encoding).sent == old(encoding).sent,
            last == (old(encoding).bands@ + 1 == writing::band_count(old(encoding).info@)),
            old(encoding).packed@.is_prefix_of(old(encoding).packed_next()),
            final(encoding).idat@ == old(encoding).packed_next().skip(
                old(encoding).sent@ * IDAT_CHUNK_BYTES,
            ),
            final(encoding).first == writing::band_start(
                old(encoding).info@,
                (old(encoding).bands@ + 1) as int,
            ),
            final(encoding).chosen == writing::row_filter(
                old(encoding).info@,
                old(encoding).data@,
                old(encoding).strategy,
                final(encoding).first - 1,
            ),
            final(encoding).first > 0,
            !last ==> {
                &&& final(encoding).stream.wf()
                &&& final(encoding).stream.progress() == encoding::after_pieces(
                    old(encoding).pieces(),
                    (old(encoding).bands@ + 1) as nat,
                )
            },
    {
        let ghost view = encoding.info@;
        let ghost n = encoding.bands@;
        let ghost pieces = encoding.pieces();
        let ghost prior = encoding.packed@;
        let ghost held = encoding.idat@;
        let ghost before = encoding.stream.progress();
        proof {
            common::lemma_sizes(view);
            lemma_first_band(view);
            lemma_bands(view, n as int);
            lemma_pushed(before, pieces[n as int]);
        }
        let row_bytes: usize = encoding.info.row_bytes();
        let height: usize = encoding.info.height as usize;
        // At least one row, however wide: a single scanline of a very large image can exceed
        // the target on its own, and a band has to be a whole number of rows because the
        // filter is chosen per row.
        let most: usize = BAND_TARGET_BYTES / (1 + row_bytes);
        let rows: usize = if most < 1 {
            1
        } else {
            most
        };
        let past: usize = if height - encoding.first > rows {
            encoding.first + rows
        } else {
            height
        };
        let last: bool = past == height;
        let mut chosen: Filter = encoding.chosen;
        filter_band(
            &mut self.filtered,
            encoding.zero_row.as_slice(),
            encoding.info,
            encoding.data,
            encoding.first,
            past,
            encoding.strategy,
            &mut chosen,
        );
        assert(self.filtered@ == pieces[n as int]);
        self.deflater.zlib_push(
            &mut encoding.stream,
            self.filtered.as_slice(),
            last,
            &mut encoding.idat,
        );
        encoding.chosen = chosen;
        encoding.first = past;
        proof {
            let now = encoding.stream.progress();
            let kept = (before.bits.len() / 8) as int;
            let added = if last {
                encoding::whole_bytes(encoding::aligned(now.bits)).skip(kept)
                    + encoding::be_bytes(adler32::checksum(now.data))
            } else {
                encoding::whole_bytes(now.bits).skip(kept)
            };
            assert(old(encoding).packed_next() == prior + added);
            assert(encoding.idat@ =~= held + added);
            lemma_held(prior, held, added, old(encoding).sent@ * IDAT_CHUNK_BYTES);
        }
        last
    }

    /// Filters and compresses the next band, and appends the chunks that it completes.
    #[verifier::rlimit(40)]
    fn next_band(&mut self, encoding: &mut Encoding<'_>, output: &mut Vec<u8>)
        requires
            old(encoding).wf(),
            old(encoding).stage is Bands,
        ensures
            final(self).strategy == old(self).strategy,
            final(encoding).wf(),
            final(encoding).image() == old(encoding).image(),
            final(encoding).parts() == old(encoding).parts() + 1,
            final(encoding).whole() == old(encoding).whole(),
            final(encoding).produced().is_prefix_of(final(encoding).whole()),
            old(encoding).produced().is_prefix_of(final(encoding).produced()),
            final(output)@ == old(output)@ + final(encoding).produced().skip(
                old(encoding).produced().len() as int,
            ),
            final(encoding).remaining() < old(encoding).remaining(),
    {
        let ghost pieces = encoding.pieces();
        let ghost whole = encoding::zlib_of_pieces(pieces);
        let ghost next = (encoding.bands@ + 1) as nat;
        let ghost sent = encoding.sent@;
        let ghost packed = encoding.packed_next();
        let ghost start = output@;
        let ghost leading = writing::leading_bytes(encoding.info@);
        let ghost done = encoding.produced();
        let ghost full = packed.len() as int / IDAT_CHUNK_BYTES as int;
        let ghost between = chunks_between(packed, sent, full);
        proof {
            assert(done == leading + writing::full_chunks(encoding.packed@, sent));
        }
        let last: bool = self.push_band(encoding);
        proof {
            lemma_full_chunks(encoding.packed@, packed, sent);
        }
        write_full_chunks(
            output,
            &mut encoding.idat,
            &mut self.crc,
            Ghost(packed),
            Ghost(sent),
        );
        proof {
            lemma_chunks_between(packed, sent, full);
            assert(done + between =~= leading + writing::full_chunks(packed, full));
        }
        if last {
            write_ending(output, encoding.idat.as_slice(), &mut self.crc, Ghost(packed));
            encoding.stage = Stage::Complete;
            proof {
                lemma_ending(leading, packed, done, between);
                lemma_appended(done, between + ending(packed));
                assert(output@ =~= start + (between + ending(packed)));
                let file = encoding.whole();
                assert(file =~= file.subrange(0, file.len() as int));
            }
        } else {
            encoding.bands = Ghost(next);
            encoding.packed = Ghost(packed);
            encoding.sent = Ghost(full);
            proof {
                lemma_stream_prefix(pieces, next);
                lemma_chunks_begin(packed, whole, full);
                lemma_prefix_after(
                    leading,
                    writing::full_chunks(packed, full),
                    writing::idat_bytes(whole),
                    writing::chunk_bytes(common::IEND, Seq::empty()),
                );
                lemma_appended(done, between);
            }
        }
    }
}

/// What follows the full chunks of all the compressed data.
spec fn ending(packed: Seq<u8>) -> Seq<u8> {
    let rest = packed.skip(packed.len() as int / IDAT_CHUNK_BYTES as int * IDAT_CHUNK_BYTES);
    let tail = if rest.len() != 0 {
        writing::chunk_bytes(common::IDAT, rest)
    } else {
        Seq::empty()
    };
    tail + writing::chunk_bytes(common::IEND, Seq::empty())
}

/// Appends the last of the compressed data and `IEND`.
fn write_ending(output: &mut Vec<u8>, rest: &[u8], crc: &mut Crc32, Ghost(packed): Ghost<Seq<u8>>)
    requires
        rest@ == packed.skip(packed.len() as int / IDAT_CHUNK_BYTES as int * IDAT_CHUNK_BYTES),
    ensures
        final(output)@ == old(output)@ + ending(packed),
{
    let ghost start = output@;
    if rest.len() != 0 {
        write_chunk(output, &common::IDAT, rest, crc);
    }
    let nothing: [u8; 0] = [];
    assert(nothing@ =~= Seq::<u8>::empty());
    write_chunk(output, &common::IEND, &nothing, crc);
    assert(output@ =~= start + ending(packed));
}

/// A whole file is what was produced before the last band, the chunks that it completes, and
/// the ending.
proof fn lemma_ending(leading: Seq<u8>, packed: Seq<u8>, done: Seq<u8>, between: Seq<u8>)
    requires
        done + between == leading + writing::full_chunks(
            packed,
            packed.len() as int / IDAT_CHUNK_BYTES as int,
        ),
    ensures
        leading + writing::idat_bytes(packed) + writing::chunk_bytes(common::IEND, Seq::empty())
            == done + (between + ending(packed)),
{
    let full = writing::full_chunks(packed, packed.len() as int / IDAT_CHUNK_BYTES as int);
    assert(leading + writing::idat_bytes(packed) + writing::chunk_bytes(common::IEND, Seq::empty())
        =~= leading + full + ending(packed));
    assert(done + (between + ending(packed)) =~= done + between + ending(packed));
}

/// What was appended is what follows.
proof fn lemma_appended(done: Seq<u8>, added: Seq<u8>)
    ensures
        done.is_prefix_of(done + added),
        (done + added).skip(done.len() as int) == added,
{
    assert(done =~= (done + added).subrange(0, done.len() as int));
    assert((done + added).skip(done.len() as int) =~= added);
}

proof fn lemma_prefix_after(front: Seq<u8>, part: Seq<u8>, whole: Seq<u8>, end: Seq<u8>)
    requires
        part.is_prefix_of(whole),
    ensures
        (front + part).is_prefix_of(front + whole + end),
{
    let all = front + whole + end;
    assert forall|i: int| 0 <= i < part.len() implies part[i] == whole[i] by {
        assert(part[i] == whole.subrange(0, part.len() as int)[i]);
    }
    assert(front + part =~= all.subrange(0, (front + part).len() as int));
}

/// An image has at least one band.
pub proof fn lemma_first_band(info: InfoView)
    requires
        info.checked() is Ok,
    ensures
        1 <= writing::band_count(info),
        1 <= writing::band_rows(info),
        writing::band_start(info, 0) == 0,
{
    let rows = writing::band_rows(info);
    lemma_div_is_ordered(rows, info.height + rows - 1, rows);
    lemma_div_by_self(rows);
    assert(0 * rows == 0) by (nonlinear_arith);
}

/// The scanlines of an image behind their filter bytes, all with the same filter: what the
/// compressor is handed.
pub fn filtered_stream(info: &Info, data: &[u8], filter: Filter) -> (stream: Vec<u8>)
    requires
        info@.checked() is Ok,
        data@.len() == info@.output_size(),
    ensures
        stream@ == writing::records(
            info@,
            data@,
            FilterStrategy::Fixed(filter),
            0,
            info@.height as int,
        ),
{
    proof {
        common::lemma_sizes(info@);
    }
    let row_bytes: usize = info.row_bytes();
    let mut zero_row: Vec<u8> = Vec::new();
    zero_row.resize(row_bytes, 0);
    assert(zero_row@ =~= common::zeros(row_bytes as nat));
    let mut stream: Vec<u8> = Vec::new();
    let mut chosen: Filter = Filter::Raw;
    filter_band(
        &mut stream,
        zero_row.as_slice(),
        info,
        data,
        0,
        info.height as usize,
        FilterStrategy::Fixed(filter),
        &mut chosen,
    );
    stream
}

/// Encodes an image described by `info` as a PNG, with the default settings.
pub fn encode(info: &Info, data: &[u8]) -> (result: Result<Vec<u8>, Error>)
    ensures
        match result {
            Ok(bytes) => writing::encoded(info@, data@, FilterStrategy::Sampled) == Ok::<
                Seq<u8>,
                Error,
            >(bytes@),
            Err(error) => writing::encoded(info@, data@, FilterStrategy::Sampled) == Err::<
                Seq<u8>,
                Error,
            >(error),
        },
{
    let mut output: Vec<u8> = Vec::new();
    let mut encoder = Encoder::new();
    match encoder.encode(info, data, &mut output) {
        Ok(()) => {
            proof {
                if let Ok(bytes) = writing::encoded(info@, data@, FilterStrategy::Sampled) {
                    assert(Seq::<u8>::empty() + bytes =~= bytes);
                }
            }
            Ok(output)
        },
        Err(error) => Err(error),
    }
}

/// Encodes tightly packed 8-bit RGBA pixels as a PNG.
pub fn encode_rgba8(width: u32, height: u32, data: &[u8]) -> (result: Result<Vec<u8>, Error>)
    ensures
        ({
            let want = writing::encoded(
                common::plain_info(width, height, ColorType::Rgba, BitDepth::Eight),
                data@,
                FilterStrategy::Sampled,
            );
            match result {
                Ok(bytes) => want == Ok::<Seq<u8>, Error>(bytes@),
                Err(error) => want == Err::<Seq<u8>, Error>(error),
            }
        }),
{
    encode(&Info::new(width, height, ColorType::Rgba, BitDepth::Eight), data)
}

/// Encodes tightly packed 8-bit RGB pixels as a PNG.
pub fn encode_rgb8(width: u32, height: u32, data: &[u8]) -> (result: Result<Vec<u8>, Error>)
    ensures
        ({
            let want = writing::encoded(
                common::plain_info(width, height, ColorType::Rgb, BitDepth::Eight),
                data@,
                FilterStrategy::Sampled,
            );
            match result {
                Ok(bytes) => want == Ok::<Seq<u8>, Error>(bytes@),
                Err(error) => want == Err::<Seq<u8>, Error>(error),
            }
        }),
{
    encode(&Info::new(width, height, ColorType::Rgb, BitDepth::Eight), data)
}

} // verus!
