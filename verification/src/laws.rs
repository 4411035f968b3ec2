//! What holds of the library as a whole.

use vstd::prelude::*;
use vstd::arithmetic::div_mod::*;
use vstd::arithmetic::mul::*;
use crate::common;
use crate::common::{ChunkView, InfoView, Interlacing};
use crate::crc32;
use crate::damage;
use crate::decoder;
use crate::decoder::Keep;
use crate::encoder;
use crate::encoder::FilterStrategy;
use crate::encoding;
use crate::error::Error;
use crate::file;
use crate::file::{Contents, Found, ImageView, Settings};
use crate::filter;
use crate::inflate::InflateError;
use crate::interlace;
use crate::roundtrip;
use crate::stream;
use crate::transform;
use crate::writing;
use crate::writing::IDAT_CHUNK_BYTES;

verus! {

// ---------------------------------------------------------------------------------------
// What is written is read back
// ---------------------------------------------------------------------------------------

/// `bytes` stand at `p` of a file.
pub open spec fn stands(png: Seq<u8>, p: int, bytes: Seq<u8>) -> bool {
    0 <= p && p + bytes.len() <= png.len() && png.subrange(p, p + bytes.len()) == bytes
}

pub proof fn lemma_stands_split(png: Seq<u8>, p: int, a: Seq<u8>, b: Seq<u8>)
    requires
        stands(png, p, a + b),
    ensures
        stands(png, p, a),
        stands(png, p + a.len(), b),
{
    let all = png.subrange(p, p + (a + b).len());
    assert(png.subrange(p, p + a.len()) =~= all.take(a.len() as int));
    assert(all.take(a.len() as int) =~= a);
    assert(png.subrange(p + a.len(), p + a.len() + b.len()) =~= all.skip(a.len() as int));
    assert(all.skip(a.len() as int) =~= b);
}

/// A chunk that was written is found.
pub proof fn lemma_chunk_found(png: Seq<u8>, p: int, kind: [u8; 4], data: Seq<u8>, verify: bool)
    requires
        stands(png, p, writing::chunk_bytes(kind, data)),
        data.len() <= common::MAX_CHUNK_BYTES,
    ensures
        file::next_chunk(png, p, verify) == Ok::<Option<Found>, Error>(
            Some(Found { kind, data, end: p + 12 + data.len() }),
        ),
        writing::chunk_bytes(kind, data).len() == 12 + data.len(),
{
    let length = encoding::be_bytes(data.len());
    let sum = encoding::be_bytes(crc32::checksum(kind@ + data) as nat);
    let whole = writing::chunk_bytes(kind, data);
    let end = p + 12 + data.len();
    assert(whole =~= length + (kind@ + data + sum));
    lemma_stands_split(png, p, length, kind@ + data + sum);
    lemma_stands_split(png, p + 4, kind@ + data, sum);
    lemma_stands_split(png, p + 4, kind@, data);
    roundtrip::lemma_be_bytes(data.len(), png, p);
    roundtrip::lemma_be_bytes(crc32::checksum(kind@ + data) as nat, png, end - 4);
    assert(png.subrange(p + 4, end - 4) == kind@ + data);
    assert(png.subrange(p + 8, end - 4) == data);
    let found = file::kind_at(png, p + 4);
    assert(found =~= kind) by {
        let four = png.subrange(p + 4, p + 8);
        assert(four == kind@);
        assert(four[0] == found[0] && four[1] == found[1] && four[2] == found[2] && four[3]
            == found[3]);
    }
}

/// The chunks of a list that were asked for.
pub open spec fn kept(chunks: Seq<ChunkView>, keep: Keep) -> Seq<ChunkView>
    decreases chunks.len(),
{
    if chunks.len() == 0 {
        Seq::empty()
    } else if file::wanted(keep, chunks.last().kind) {
        kept(chunks.drop_last(), keep).push(chunks.last())
    } else {
        kept(chunks.drop_last(), keep)
    }
}

/// Every chunk of a list can be written.
pub open spec fn all_writable(chunks: Seq<ChunkView>) -> bool {
    forall|i: int| 0 <= i < chunks.len() ==> (#[trigger] chunks[i]).checked() is Ok
}

pub proof fn lemma_all_writable(chunks: Seq<ChunkView>)
    requires
        writing::chunks_checked(chunks) is Ok,
    ensures
        all_writable(chunks),
    decreases chunks.len(),
{
    if chunks.len() > 0 {
        lemma_all_writable(chunks.drop_last());
        assert forall|i: int| 0 <= i < chunks.len() implies (#[trigger] chunks[i]).checked() is Ok by {
            if i < chunks.len() - 1 {
                assert(chunks.drop_last()[i] == chunks[i]);
            }
        }
    }
}

pub proof fn lemma_side_writable(chunks: Seq<ChunkView>, before: bool)
    requires
        all_writable(chunks),
    ensures
        all_writable(writing::side(chunks, before)),
    decreases chunks.len(),
{
    if chunks.len() > 0 {
        let rest = chunks.drop_last();
        assert forall|i: int| 0 <= i < rest.len() implies (#[trigger] rest[i]).checked() is Ok by {
            assert(rest[i] == chunks[i]);
        }
        lemma_side_writable(rest, before);
        assert(chunks[chunks.len() - 1].checked() is Ok);
    }
}

/// The types of the chunks that the format defines differ from each other.
pub proof fn lemma_kinds()
    ensures
        common::IEND != common::IDAT,
        common::PLTE != common::IEND,
        common::PLTE != common::IDAT,
        common::PLTE != common::TRNS,
        common::TRNS != common::IEND,
        common::TRNS != common::IDAT,
        common::critical(common::IEND),
        common::critical(common::IDAT),
        common::critical(common::PLTE),
        common::critical(common::IHDR),
        !common::critical(common::TRNS),
{
    assert(common::IEND[1] != common::IDAT[1]);
    assert(common::PLTE[0] != common::IEND[0]);
    assert(common::PLTE[0] != common::IDAT[0]);
    assert(common::PLTE[0] != common::TRNS[0]);
    assert(common::TRNS[0] != common::IEND[0]);
    assert(common::TRNS[0] != common::IDAT[0]);
}

/// Metadata that was written is read, in the order it was written in.
pub proof fn lemma_metadata_read(
    png: Seq<u8>,
    p: int,
    chunks: Seq<ChunkView>,
    verify: bool,
    keep: Keep,
    contents: Contents,
)
    requires
        stands(png, p, writing::chunks_bytes(chunks)),
        all_writable(chunks),
    ensures
        file::contents_from(png, p, verify, keep, contents) == file::contents_from(
            png,
            p + writing::chunks_bytes(chunks).len(),
            verify,
            keep,
            Contents {
                info: InfoView {
                    metadata: contents.info.metadata + kept(chunks, keep),
                    ..contents.info
                },
                ..contents
            },
        ),
    decreases chunks.len(),
{
    if chunks.len() == 0 {
        assert(contents.info.metadata + kept(chunks, keep) =~= contents.info.metadata);
    } else {
        let front = chunks.drop_last();
        let last = chunks.last();
        let a = writing::chunks_bytes(front);
        let b = writing::chunk_bytes(last.kind, last.data);
        assert forall|i: int| 0 <= i < front.len() implies (#[trigger] front[i]).checked() is Ok by {
            assert(front[i] == chunks[i]);
        }
        assert(chunks[chunks.len() - 1].checked() is Ok);
        lemma_stands_split(png, p, a, b);
        lemma_metadata_read(png, p, front, verify, keep, contents);
        lemma_chunk_found(png, p + a.len(), last.kind, last.data, verify);
        lemma_kinds();
        assert(last.kind != common::IEND && last.kind != common::IDAT && last.kind != common::PLTE)
            by {
            assert(common::is_lower(last.kind[0]));
        }
        let grown = contents.info.metadata + kept(front, keep);
        assert(ChunkView { kind: last.kind, data: last.data } == last);
        if file::wanted(keep, last.kind) {
            assert(grown.push(last) =~= contents.info.metadata + kept(chunks, keep));
        } else {
            assert(grown =~= contents.info.metadata + kept(chunks, keep));
        }
    }
}

/// Image data with more behind it.
pub open spec fn more_data(so_far: Option<Seq<u8>>, data: Seq<u8>) -> Option<Seq<u8>> {
    match so_far {
        None => if data.len() == 0 {
            None
        } else {
            Some(data)
        },
        Some(bytes) => Some(bytes + data),
    }
}

/// Full image data chunks are read and joined.
pub proof fn lemma_full_chunks_read(
    png: Seq<u8>,
    p: int,
    packed: Seq<u8>,
    n: int,
    verify: bool,
    keep: Keep,
    contents: Contents,
)
    requires
        0 <= n,
        n * IDAT_CHUNK_BYTES <= packed.len(),
        stands(png, p, writing::full_chunks(packed, n)),
        contents.idat is None,
    ensures
        file::contents_from(png, p, verify, keep, contents) == file::contents_from(
            png,
            p + writing::full_chunks(packed, n).len(),
            verify,
            keep,
            Contents { idat: more_data(None, packed.take(n * IDAT_CHUNK_BYTES)), ..contents },
        ),
    decreases n,
{
    if n == 0 {
        assert(packed.take(0).len() == 0);
    } else {
        let a = writing::full_chunks(packed, n - 1);
        let data = packed.subrange((n - 1) * IDAT_CHUNK_BYTES, n * IDAT_CHUNK_BYTES);
        lemma_stands_split(png, p, a, writing::chunk_bytes(common::IDAT, data));
        lemma_full_chunks_read(png, p, packed, n - 1, verify, keep, contents);
        lemma_chunk_found(png, p + a.len(), common::IDAT, data, verify);
        lemma_kinds();
        let so_far = packed.take((n - 1) * IDAT_CHUNK_BYTES);
        assert(so_far + data =~= packed.take(n * IDAT_CHUNK_BYTES));
        if n == 1 {
            assert(data =~= packed.take(n * IDAT_CHUNK_BYTES));
        }
    }
}

/// Image data that was written in chunks is read and joined.
pub proof fn lemma_idat_read(
    png: Seq<u8>,
    p: int,
    packed: Seq<u8>,
    verify: bool,
    keep: Keep,
    contents: Contents,
)
    requires
        packed.len() > 0,
        stands(png, p, writing::idat_bytes(packed)),
        contents.idat is None,
    ensures
        file::contents_from(png, p, verify, keep, contents) == file::contents_from(
            png,
            p + writing::idat_bytes(packed).len(),
            verify,
            keep,
            Contents { idat: Some(packed), ..contents },
        ),
{
    let n = packed.len() as int / IDAT_CHUNK_BYTES as int;
    let a = writing::full_chunks(packed, n);
    let rest = packed.skip(n * IDAT_CHUNK_BYTES);
    if rest.len() == 0 {
        lemma_full_chunks_read(png, p, packed, n, verify, keep, contents);
        assert(packed.take(n * IDAT_CHUNK_BYTES) =~= packed);
    } else {
        lemma_stands_split(png, p, a, writing::chunk_bytes(common::IDAT, rest));
        lemma_full_chunks_read(png, p, packed, n, verify, keep, contents);
        lemma_chunk_found(png, p + a.len(), common::IDAT, rest, verify);
        lemma_kinds();
        let front = packed.take(n * IDAT_CHUNK_BYTES);
        assert(front + rest =~= packed);
        if front.len() == 0 {
            assert(rest =~= packed);
        }
    }
}

/// A palette or a transparency that was written is read.
pub proof fn lemma_optional_read(
    png: Seq<u8>,
    p: int,
    palette: bool,
    data: Option<Seq<u8>>,
    verify: bool,
    keep: Keep,
    contents: Contents,
)
    requires
        stands(
            png,
            p,
            writing::optional_chunk(
                if palette {
                    common::PLTE
                } else {
                    common::TRNS
                },
                data,
            ),
        ),
        contents.idat is None,
        palette ==> contents.info.palette is None,
        !palette ==> contents.info.transparency is None,
        data matches Some(bytes) ==> if palette {
            file::palette_length(bytes.len() as int)
        } else {
            file::transparency_suits(contents.info.color_type, bytes.len() as int) is Ok
        },
    ensures
        file::contents_from(png, p, verify, keep, contents) == file::contents_from(
            png,
            p + writing::optional_chunk(
                if palette {
                    common::PLTE
                } else {
                    common::TRNS
                },
                data,
            ).len(),
            verify,
            keep,
            Contents {
                info: if palette {
                    InfoView { palette: data, ..contents.info }
                } else {
                    InfoView { transparency: data, ..contents.info }
                },
                ..contents
            },
        ),
{
    if let Some(bytes) = data {
        let kind = if palette {
            common::PLTE
        } else {
            common::TRNS
        };
        assert(bytes.len() <= 768);
        lemma_chunk_found(png, p, kind, bytes, verify);
        lemma_kinds();
    }
}

/// The description that a file written from `info` begins with.
pub open spec fn bare(info: InfoView) -> InfoView {
    common::plain_info(info.width, info.height, info.color_type, info.bit_depth)
}

/// A sequential image of the same dimensions is no larger than the machine can address.
proof fn lemma_bare_checked(info: InfoView)
    requires
        info.checked() is Ok,
    ensures
        bare(info).checked() is Ok,
        bare(info).bits() == info.bits(),
        bare(info).row_bytes() == info.row_bytes(),
        bare(info).decompressed_size() == info.sequential_size(),
        bare(info).output_size() == info.output_size(),
{
    common::lemma_sizes(info);
    assert(bare(info).bits() == info.bits());
    assert(bare(info).sequential_size() == info.sequential_size());
}

/// A header that was written is read.
pub proof fn lemma_header_read(info: InfoView)
    requires
        info.checked() is Ok,
    ensures
        file::header(writing::ihdr_payload(info)) == Ok::<InfoView, Error>(bare(info)),
        writing::ihdr_payload(info).len() == 13,
{
    let data = writing::ihdr_payload(info);
    let w = encoding::be_bytes(info.width as nat);
    let h = encoding::be_bytes(info.height as nat);
    assert(data.subrange(0, 4) =~= w);
    assert(data.subrange(4, 8) =~= h);
    roundtrip::lemma_be_bytes(info.width as nat, data, 0);
    roundtrip::lemma_be_bytes(info.height as nat, data, 4);
    assert(data[8] == common::depth_bits(info.bit_depth));
    assert(data[9] == common::color_byte(info.color_type));
    assert(data[10] == 0 && data[11] == 0 && data[12] == 0);
    lemma_bare_checked(info);
}

/// The rows of a band stand behind those of the bands before it.
proof fn lemma_records_joined(
    info: InfoView,
    data: Seq<u8>,
    strategy: FilterStrategy,
    a: int,
    b: int,
    c: int,
)
    requires
        a <= b <= c,
    ensures
        writing::records(info, data, strategy, a, c) == writing::records(info, data, strategy, a, b)
            + writing::records(info, data, strategy, b, c),
    decreases c - b,
{
    if b == c {
        assert(writing::records(info, data, strategy, a, b) =~= writing::records(
            info,
            data,
            strategy,
            a,
            b,
        ) + Seq::<u8>::empty());
    } else {
        lemma_records_joined(info, data, strategy, a, b, c - 1);
        let left = writing::records(info, data, strategy, a, b);
        let right = writing::records(info, data, strategy, b, c - 1);
        let last = writing::record(info, data, strategy, c - 1);
        assert(left + right + last =~= left + (right + last));
    }
}

/// The bands one after the other are all the rows.
proof fn lemma_bands_joined(info: InfoView, data: Seq<u8>, strategy: FilterStrategy, n: nat)
    requires
        info.checked() is Ok,
        n <= writing::band_count(info),
    ensures
        encoding::joined(writing::bands(info, data, strategy), n) == writing::records(
            info,
            data,
            strategy,
            0,
            writing::band_start(info, n as int),
        ),
    decreases n,
{
    encoder::lemma_first_band(info);
    if n > 0 {
        let m = (n - 1) as nat;
        lemma_bands_joined(info, data, strategy, m);
        encoder::lemma_bands(info, m as int);
        lemma_mul_nonnegative(m as int, writing::band_rows(info));
        lemma_records_joined(
            info,
            data,
            strategy,
            0,
            writing::band_start(info, m as int),
            writing::band_start(info, n as int),
        );
    }
}

/// Filtered rows take one byte more each.
proof fn lemma_records_len(info: InfoView, data: Seq<u8>, strategy: FilterStrategy, n: int)
    requires
        info.row_bytes() >= 0,
        data.len() == info.output_size(),
        0 <= n <= info.height,
    ensures
        writing::records(info, data, strategy, 0, n).len() == n * (1 + info.row_bytes()),
    decreases n,
{
    if n > 0 {
        lemma_records_len(info, data, strategy, n - 1);
        encoder::lemma_record_len(info, data, strategy, n - 1);
        lemma_mul_is_distributive_add_other_way(1 + info.row_bytes(), n - 1, 1);
    } else {
        assert(0 * (1 + info.row_bytes()) == 0) by (nonlinear_arith);
    }
}

/// Scanlines are made of whole strides.
proof fn lemma_row_strides(info: InfoView)
    requires
        info.checked() is Ok,
    ensures
        info.stride() >= 1,
        info.row_bytes() % info.stride() == 0,
{
    common::lemma_bits(info);
    common::lemma_sizes(info);
    if info.bits() >= 8 {
        interlace::lemma_cells(info.width as int, info.bits());
        lemma_mod_multiples_basic(info.width as int, info.stride());
    }
}

/// Filtered rows are restored.
#[verifier::rlimit(30)]
proof fn lemma_rows_restored(
    info: InfoView,
    data: Seq<u8>,
    strategy: FilterStrategy,
    raw: Seq<u8>,
    n: nat,
)
    requires
        info.checked() is Ok,
        data.len() == info.output_size(),
        n <= info.height,
        raw == writing::records(info, data, strategy, 0, info.height as int),
    ensures
        filter::unfiltered_rows(raw, info.row_bytes() as nat, info.stride() as nat, n) == Ok::<
            Seq<u8>,
            int,
        >(data.take(n * info.row_bytes())),
    decreases n,
{
    common::lemma_sizes(info);
    lemma_row_strides(info);
    let rb = info.row_bytes();
    if n == 0 {
        assert(0 * rb == 0) by (nonlinear_arith);
        assert(data.take(0) =~= Seq::empty());
    } else {
        let y = n - 1;
        lemma_rows_restored(info, data, strategy, raw, y as nat);
        interlace::lemma_row_place(y, info.height as int, rb);
        let before = data.take(y * rb);
        let at = filter::record_at(rb as nat, y);
        lemma_records_len(info, data, strategy, y);
        lemma_records_len(info, data, strategy, n as int);
        lemma_records_len(info, data, strategy, info.height as int);
        lemma_records_joined(info, data, strategy, 0, n as int, info.height as int);
        let choice = writing::row_filter(info, data, strategy, y);
        let record = writing::record(info, data, strategy, y);
        encoder::lemma_record_len(info, data, strategy, y);
        let row = writing::image_row(info, data, y);
        let above = writing::image_row_above(info, data, y);
        assert(raw.subrange(at, at + 1 + rb) =~= record);
        assert(raw[at] == record[0]);
        assert(raw.subrange(at + 1, at + 1 + rb) =~= record.skip(1));
        assert(record.skip(1) =~= filter::filtered(choice, info.stride() as nat, above, row));
        assert(filter::filter_of(record[0]) == Some(choice));
        if y > 0 {
            interlace::lemma_row_place(y - 1, info.height as int, rb);
        }
        assert(filter::row_above(before, rb as nat, y) =~= above);
        filter::law_filter_round_trip(choice, info.stride() as nat, above, row);
        assert(before + row =~= data.take(n * rb));
    }
}

/// What a file written from an image says: the image's own description, sequential, with the
/// metadata that was asked for, first what goes before the palette.
pub open spec fn read_back(info: InfoView, keep: Keep) -> InfoView {
    InfoView {
        interlacing: Interlacing::Sequential,
        metadata: kept(writing::side(info.metadata, true), keep) + kept(
            writing::side(info.metadata, false),
            keep,
        ),
        ..info
    }
}

/// A written file begins with the signature and the header.
pub proof fn lemma_opening(info: InfoView, data: Seq<u8>, strategy: FilterStrategy)
    requires
        info.checked() is Ok,
    ensures
        ({
            let png = writing::file_bytes(info, data, strategy);
            let payload = writing::ihdr_payload(info);
            &&& file::signed(png)
            &&& stands(png, 8, writing::chunk_bytes(common::IHDR, payload))
        }),
{
    let png = writing::file_bytes(info, data, strategy);
    let opening = encoder::opening_bytes(info);
    let payload = writing::ihdr_payload(info);
    assert(png.subrange(0, opening.len() as int) =~= opening);
    lemma_stands_split(png, 0, common::SIGNATURE@, writing::chunk_bytes(common::IHDR, payload));
    assert(png.take(8) =~= common::SIGNATURE@);
}

/// The signature and the header of a written file are read.
pub proof fn lemma_opened(info: InfoView, data: Seq<u8>, strategy: FilterStrategy, verify: bool)
    requires
        info.checked() is Ok,
    ensures
        file::opened(writing::file_bytes(info, data, strategy), verify) == Ok::<
            (InfoView, int),
            Error,
        >((bare(info), 33)),
{
    let png = writing::file_bytes(info, data, strategy);
    lemma_header_read(info);
    lemma_opening(info, data, strategy);
    lemma_chunk_found(png, 8, common::IHDR, writing::ihdr_payload(info), verify);
}

/// Where the parts of a written file begin that follow the metadata in front of the palette:
/// palette, transparency, other metadata, image data, end.
pub open spec fn places(info: InfoView, packed: Seq<u8>) -> (int, int, int, int, int) {
    let p1 = 33 + writing::chunks_bytes(writing::side(info.metadata, true)).len();
    let p2 = p1 + writing::optional_chunk(common::PLTE, info.palette).len();
    let p3 = p2 + writing::optional_chunk(common::TRNS, info.transparency).len();
    let p4 = p3 + writing::chunks_bytes(writing::side(info.metadata, false)).len();
    let p5 = p4 + writing::idat_bytes(packed).len();
    (p1 as int, p2 as int, p3 as int, p4 as int, p5 as int)
}

/// Where the parts of a written file stand.
pub proof fn lemma_layout(info: InfoView, data: Seq<u8>, strategy: FilterStrategy)
    requires
        info.checked() is Ok,
    ensures
        ({
            let png = writing::file_bytes(info, data, strategy);
            let packed = encoding::zlib_of_pieces(writing::bands(info, data, strategy));
            let (p1, p2, p3, p4, p5) = places(info, packed);
            &&& stands(png, 33, writing::chunks_bytes(writing::side(info.metadata, true)))
            &&& stands(png, p1, writing::optional_chunk(common::PLTE, info.palette))
            &&& stands(png, p2, writing::optional_chunk(common::TRNS, info.transparency))
            &&& stands(png, p3, writing::chunks_bytes(writing::side(info.metadata, false)))
            &&& stands(png, p4, writing::idat_bytes(packed))
            &&& stands(png, p5, writing::chunk_bytes(common::IEND, Seq::empty()))
            &&& packed.len() > 0
            &&& png.len() == p5 + 12
        }),
{
    let png = writing::file_bytes(info, data, strategy);
    let packed = encoding::zlib_of_pieces(writing::bands(info, data, strategy));
    let a = encoder::opening_bytes(info);
    let b = writing::chunks_bytes(writing::side(info.metadata, true));
    let c = writing::optional_chunk(common::PLTE, info.palette);
    let d = writing::optional_chunk(common::TRNS, info.transparency);
    let e = writing::chunks_bytes(writing::side(info.metadata, false));
    let f = writing::idat_bytes(packed);
    let g = writing::chunk_bytes(common::IEND, Seq::empty());
    let (p1, p2, p3, p4, p5) = places(info, packed);
    lemma_header_read(info);
    assert(a.len() == 33);
    assert(png == a + b + c + d + e + f + g);
    assert(stands(png, 0, png)) by {
        assert(png.subrange(0, png.len() as int) =~= png);
    }
    lemma_stands_split(png, 0, a + b + c + d + e + f, g);
    lemma_stands_split(png, 0, a + b + c + d + e, f);
    lemma_stands_split(png, 0, a + b + c + d, e);
    lemma_stands_split(png, 0, a + b + c, d);
    lemma_stands_split(png, 0, a + b, c);
    lemma_stands_split(png, 0, a, b);
}

/// The chunks of a written file are read.
#[verifier::rlimit(30)]
proof fn lemma_contents_read(
    info: InfoView,
    data: Seq<u8>,
    strategy: FilterStrategy,
    verify: bool,
    keep: Keep,
)
    requires
        writing::writable(info, data) is Ok,
    ensures
        file::contents_from(
            writing::file_bytes(info, data, strategy),
            33,
            verify,
            keep,
            Contents { info: bare(info), idat: None },
        ) == Ok::<Contents, Error>(
            Contents {
                info: read_back(info, keep),
                idat: Some(encoding::zlib_of_pieces(writing::bands(info, data, strategy))),
            },
        ),
{
    let png = writing::file_bytes(info, data, strategy);
    let packed = encoding::zlib_of_pieces(writing::bands(info, data, strategy));
    let front = writing::side(info.metadata, true);
    let back = writing::side(info.metadata, false);
    lemma_layout(info, data, strategy);
    let (p1, p2, p3, p4, p5) = places(info, packed);
    lemma_all_writable(info.metadata);
    lemma_side_writable(info.metadata, true);
    lemma_side_writable(info.metadata, false);
    let c0 = Contents { info: bare(info), idat: None };
    lemma_metadata_read(png, 33, front, verify, keep, c0);
    let m1 = kept(front, keep);
    let i1 = InfoView { metadata: m1, ..bare(info) };
    assert(bare(info).metadata + m1 =~= m1);
    let c1 = Contents { info: i1, idat: None };
    lemma_optional_read(png, p1, true, info.palette, verify, keep, c1);
    let i2 = InfoView { palette: info.palette, ..i1 };
    let c2 = Contents { info: i2, idat: None };
    lemma_optional_read(png, p2, false, info.transparency, verify, keep, c2);
    let i3 = InfoView { transparency: info.transparency, ..i2 };
    let c3 = Contents { info: i3, idat: None };
    lemma_metadata_read(png, p3, back, verify, keep, c3);
    let i4 = InfoView { metadata: m1 + kept(back, keep), ..i3 };
    assert(i4 == read_back(info, keep));
    let c4 = Contents { info: i4, idat: None };
    lemma_idat_read(png, p4, packed, verify, keep, c4);
    lemma_chunk_found(png, p5, common::IEND, Seq::empty(), verify);
}

/// An image that is written and read again comes back: the same pixels, and the same
/// description but for two things. The image is sequential, and the metadata is what was
/// asked for, in the order of the file.
///
/// Where the image is indexed its palette has to cover it, and the decoder's limit has to
/// admit it.
#[verifier::rlimit(40)]
pub proof fn law_file_reads_back(
    info: InfoView,
    data: Seq<u8>,
    strategy: FilterStrategy,
    settings: Settings,
)
    requires
        writing::writable(info, data) is Ok,
        file::palette_covers(info, data) is Ok,
        file::within(info.sequential_size(), settings.limit),
    ensures
        file::decoded(writing::file_bytes(info, data, strategy), settings) == Ok::<
            ImageView,
            Error,
        >(ImageView { info: read_back(info, settings.keep), data }),
{
    let png = writing::file_bytes(info, data, strategy);
    let verify = file::verifies(settings.checks);
    let bands = writing::bands(info, data, strategy);
    let packed = encoding::zlib_of_pieces(bands);
    let raw = writing::records(info, data, strategy, 0, info.height as int);
    let view = read_back(info, settings.keep);
    common::lemma_sizes(info);
    lemma_bare_checked(info);
    lemma_opened(info, data, strategy, verify);
    lemma_contents_read(info, data, strategy, verify, settings.keep);
    assert(file::parsed(png, settings) == Ok::<(InfoView, Seq<u8>), Error>((view, packed)));
    assert(view.bits() == info.bits());
    assert(view.row_bytes() == info.row_bytes());
    assert(view.decompressed_size() == info.sequential_size());
    encoder::lemma_first_band(info);
    let count = writing::band_count(info) as nat;
    lemma_bands_joined(info, data, strategy, count);
    encoder::lemma_bands(info, count - 1);
    lemma_records_len(info, data, strategy, info.height as int);
    lemma_mul_is_commutative(info.height as int, 1 + info.row_bytes());
    roundtrip::law_pieces_read_back(bands, info.sequential_size() as nat, settings.checks is Full);
    assert(stream::zlib_exact(packed, view.decompressed_size() as nat, settings.checks is Full)
        == Ok::<Seq<u8>, InflateError>(raw));
    lemma_rows_restored(info, data, strategy, raw, info.height as nat);
    lemma_mul_is_commutative(info.height as int, info.row_bytes());
    assert(data.take(info.height * info.row_bytes()) =~= data);
    assert(view.stride() == info.stride());
    assert(file::pixels(view, raw) == Ok::<Seq<u8>, Error>(data));
    assert(file::palette_covers(view, data) == file::palette_covers(info, data)) by {
        if info.palette is Some {
            lemma_same_indices(view, info, data, (info.palette->0.len() / 3) as int);
        }
    }
}

/// Palette indices depend on the layout alone.
proof fn lemma_same_indices(a: InfoView, b: InfoView, data: Seq<u8>, entries: int)
    requires
        a.width == b.width,
        a.height == b.height,
        a.color_type == b.color_type,
        a.bit_depth == b.bit_depth,
    ensures
        file::indices_fit(a, data, entries) == file::indices_fit(b, data, entries),
{
    assert forall|x: int, y: int| file::index_at(a, data, x, y) == file::index_at(b, data, x, y) by {
        assert(a.bits() == b.bits());
        assert(a.row_bytes() == b.row_bytes());
    }
    if file::indices_fit(a, data, entries) {
        assert forall|x: int, y: int| 0 <= x < b.width && 0 <= y < b.height implies #[trigger] file::index_at(
            b,
            data,
            x,
            y,
        ) < entries by {
            assert(file::index_at(a, data, x, y) < entries);
        }
    }
    if file::indices_fit(b, data, entries) {
        assert forall|x: int, y: int| 0 <= x < a.width && 0 <= y < a.height implies #[trigger] file::index_at(
            a,
            data,
            x,
            y,
        ) < entries by {
            assert(file::index_at(b, data, x, y) < entries);
        }
    }
}

// ---------------------------------------------------------------------------------------
// Reading the header alone
// ---------------------------------------------------------------------------------------

/// `b` is `a` with more metadata behind it.
pub open spec fn extends(a: InfoView, b: InfoView) -> bool {
    &&& a.metadata.is_prefix_of(b.metadata)
    &&& b == InfoView { metadata: b.metadata, ..a }
}

/// Behind the image data only metadata is added.
proof fn lemma_behind_idat(png: Seq<u8>, p: int, verify: bool, keep: Keep, contents: Contents)
    requires
        contents.idat is Some,
    ensures
        file::contents_from(png, p, verify, keep, contents) matches Ok(all) ==> {
            &&& all.idat is Some
            &&& extends(contents.info, all.info)
            &&& keep is Nothing ==> all.info == contents.info
        },
    decreases png.len() - p,
{
    file::lemma_next_chunk(png, p, verify);
    let m = contents.info.metadata;
    assert(m =~= m.subrange(0, m.len() as int));
    if let Ok(Some(found)) = file::next_chunk(png, p, verify) {
        if found.kind == common::IEND {
        } else if found.kind == common::IDAT {
            lemma_behind_idat(png, found.end, verify, keep, file::with_idat(contents, found.data));
        } else {
            if let Ok(info) = file::absorbed(contents.info, found.kind, found.data, keep, false) {
                lemma_behind_idat(png, found.end, verify, keep, Contents { info, ..contents });
                if let Ok(all) = file::contents_from(png, p, verify, keep, contents) {
                    lemma_extends(contents.info, info, all.info);
                }
            }
        }
    }
}

proof fn lemma_extends(a: InfoView, b: InfoView, c: InfoView)
    requires
        extends(b, c),
        b == (InfoView { metadata: b.metadata, ..a }),
        b.metadata == a.metadata || exists|chunk: ChunkView| b.metadata == a.metadata.push(chunk),
    ensures
        extends(a, c),
{
    let n = a.metadata.len() as int;
    assert(b.metadata.subrange(0, n) =~= a.metadata);
    assert(c.metadata.subrange(0, n) =~= c.metadata.subrange(
        0,
        b.metadata.len() as int,
    ).subrange(0, n));
}

/// What is read up to the image data is part of what is read in all.
proof fn lemma_header_of_contents(png: Seq<u8>, p: int, verify: bool, keep: Keep, info: InfoView)
    ensures
        file::contents_from(png, p, verify, keep, Contents { info, idat: None }) matches Ok(all)
            ==> all.idat is Some ==> !file::lacks_palette(all.info) ==> (file::header_from(
            png,
            p,
            verify,
            keep,
            info,
        ) matches Ok(read) && extends(read, all.info) && (keep is Nothing ==> read == all.info)),
    decreases png.len() - p,
{
    file::lemma_next_chunk(png, p, verify);
    let contents = Contents { info, idat: None };
    if let Ok(Some(found)) = file::next_chunk(png, p, verify) {
        if found.kind == common::IEND {
        } else if found.kind == common::IDAT {
            lemma_behind_idat(png, found.end, verify, keep, file::with_idat(contents, found.data));
        } else {
            if let Ok(grown) = file::absorbed(info, found.kind, found.data, keep, true) {
                lemma_header_of_contents(png, found.end, verify, keep, grown);
            }
        }
    }
}

/// Every file that decodes has a header that reads, and the two agree: what the header read
/// lacks is metadata behind the image data. A file whose header is rejected never decodes.
pub proof fn law_header_read_is_weaker(png: Seq<u8>, settings: Settings)
    ensures
        file::decoded(png, settings) matches Ok(image) ==> (file::described(
            png,
            settings.checks,
            settings.keep,
        ) matches Ok(info) && extends(info, image.info) && (settings.keep is Nothing ==> info
            == image.info)),
        file::described(png, settings.checks, settings.keep) is Err ==> file::decoded(
            png,
            settings,
        ) is Err,
{
    let verify = file::verifies(settings.checks);
    if let Ok((info, p)) = file::opened(png, verify) {
        lemma_header_of_contents(png, p, verify, settings.keep, info);
    }
}

// ---------------------------------------------------------------------------------------
// Limits
// ---------------------------------------------------------------------------------------

/// A header that names more than the limit is refused, whatever follows it. A size that no
/// number of the machine holds is too large as such.
pub proof fn law_oversized_header_is_refused(png: Seq<u8>, settings: Settings, rest: Seq<u8>)
    requires
        file::opened(png, file::verifies(settings.checks)) matches Ok((info, p)) && !file::within(
            info.decompressed_size(),
            settings.limit,
        ),
    ensures
        ({
            let (info, p) = file::opened(png, file::verifies(settings.checks))->Ok_0;
            let refusal = Err::<ImageView, Error>(
                if info.decompressed_size() > usize::MAX {
                    Error::ImageTooLarge
                } else {
                    Error::SizeLimitExceeded {
                        size: info.decompressed_size() as usize,
                        limit: settings.limit->0,
                    }
                },
            );
            &&& file::decoded(png, settings) == refusal
            &&& file::decoded(png.take(p) + rest, settings) == refusal
        }),
{
    let verify = file::verifies(settings.checks);
    let (info, p) = file::opened(png, verify)->Ok_0;
    file::lemma_next_chunk(png, 8, verify);
    let other = png.take(p) + rest;
    assert(other.take(p) =~= png.take(p));
    lemma_same_front(png, other, 8, p, verify);
    assert(png.take(8) =~= other.take(8));
}

/// A chunk that ends by `cut` is found in every file that agrees up to there.
proof fn lemma_same_front(a: Seq<u8>, b: Seq<u8>, p: int, cut: int, verify: bool)
    requires
        0 <= p,
        file::next_chunk(a, p, verify) matches Ok(Some(found)) && found.end <= cut,
        cut <= a.len(),
        cut <= b.len(),
        a.take(cut) == b.take(cut),
    ensures
        file::next_chunk(b, p, verify) == file::next_chunk(a, p, verify),
    decreases a.len() - p,
{
    let found = file::next_chunk(a, p, verify)->Ok_0->0;
    file::lemma_next_chunk(a, p, verify);
    assert forall|i: int| 0 <= i < cut implies #[trigger] a[i] == b[i] by {
        assert(a.take(cut)[i] == a[i]);
        assert(b.take(cut)[i] == b[i]);
    }
    let length = stream::be32(a, p) as int;
    let end = p + 12 + length;
    file::lemma_next_chunk(a, end, verify);
    assert(end <= cut);
    assert(stream::be32(b, p) == stream::be32(a, p));
    assert(file::kind_at(a, p + 4) =~= file::kind_at(b, p + 4));
    assert(a.subrange(p + 4, end - 4) =~= b.subrange(p + 4, end - 4));
    assert(a.subrange(p + 8, end - 4) =~= b.subrange(p + 8, end - 4));
    if file::next_chunk(a, p, verify) == file::next_chunk(a, end, verify) {
        lemma_same_front(a, b, end, cut, verify);
    }
}

// ---------------------------------------------------------------------------------------
// What is read can be written
// ---------------------------------------------------------------------------------------

/// A description whose chunks the encoder writes.
spec fn carried(info: InfoView) -> bool {
    &&& info.palette matches Some(bytes) ==> file::palette_length(bytes.len() as int)
    &&& info.transparency matches Some(bytes) ==> file::transparency_suits(
        info.color_type,
        bytes.len() as int,
    ) is Ok
    &&& all_writable(info.metadata)
}

/// A payload that is found is no longer than the format allows.
proof fn lemma_found_len(png: Seq<u8>, p: int, verify: bool)
    requires
        0 <= p,
    ensures
        file::next_chunk(png, p, verify) matches Ok(Some(found)) ==> found.data.len()
            <= common::MAX_CHUNK_BYTES,
    decreases png.len() - p,
{
    if p < png.len() && p + 8 <= png.len() {
        let end = p + 12 + stream::be32(png, p);
        if end <= png.len() {
            lemma_found_len(png, end, verify);
        }
    }
}

proof fn lemma_carried(png: Seq<u8>, p: int, verify: bool, keep: Keep, contents: Contents)
    requires
        0 <= p,
        carried(contents.info),
    ensures
        file::contents_from(png, p, verify, keep, contents) matches Ok(all) ==> {
            &&& carried(all.info)
            &&& decoder::same_shape(all.info, contents.info)
        },
    decreases png.len() - p,
{
    file::lemma_next_chunk(png, p, verify);
    lemma_found_len(png, p, verify);
    if let Ok(Some(found)) = file::next_chunk(png, p, verify) {
        if found.kind == common::IEND {
        } else if found.kind == common::IDAT {
            lemma_carried(png, found.end, verify, keep, file::with_idat(contents, found.data));
        } else {
            if let Ok(info) = file::absorbed(
                contents.info,
                found.kind,
                found.data,
                keep,
                contents.idat is None,
            ) {
                assert(carried(info)) by {
                    assert forall|i: int| 0 <= i < info.metadata.len() implies (
                    #[trigger] info.metadata[i]).checked() is Ok by {
                        if i < contents.info.metadata.len() {
                            assert(info.metadata[i] == contents.info.metadata[i]);
                        }
                    }
                }
                lemma_carried(png, found.end, verify, keep, Contents { info, ..contents });
            }
        }
    }
}

proof fn lemma_chunks_checked(chunks: Seq<ChunkView>)
    requires
        all_writable(chunks),
    ensures
        writing::chunks_checked(chunks) is Ok,
    decreases chunks.len(),
{
    if chunks.len() > 0 {
        let rest = chunks.drop_last();
        assert forall|i: int| 0 <= i < rest.len() implies (#[trigger] rest[i]).checked() is Ok by {
            assert(rest[i] == chunks[i]);
        }
        lemma_chunks_checked(rest);
        assert(chunks[chunks.len() - 1].checked() is Ok);
    }
}

/// A header that is read describes an image.
proof fn lemma_opened_checked(png: Seq<u8>, verify: bool)
    ensures
        file::opened(png, verify) matches Ok((info, p)) ==> {
            &&& info.checked() is Ok
            &&& carried(info)
            &&& 8 <= p
        },
{
    file::lemma_next_chunk(png, 8, verify);
}

/// An image that was decoded fills its dimensions, and everything about it can be written.
proof fn lemma_decoded(png: Seq<u8>, settings: Settings)
    ensures
        file::decoded(png, settings) matches Ok(image) ==> {
            &&& image.info.checked() is Ok
            &&& carried(image.info)
            &&& image.data.len() == image.info.output_size()
            &&& !file::lacks_palette(image.info)
            &&& file::palette_covers(image.info, image.data) is Ok
        },
{
    let verify = file::verifies(settings.checks);
    lemma_opened_checked(png, verify);
    if let Ok((info, p)) = file::opened(png, verify) {
        let start = Contents { info, idat: None };
        lemma_carried(png, p, verify, settings.keep, start);
        if let Ok(image) = file::decoded(png, settings) {
            let view = image.info;
            assert(view.bits() == info.bits());
            assert(view.row_bytes() == info.row_bytes());
            assert(view.decompressed_size() == info.decompressed_size());
            assert(view.checked() == info.checked());
            let idat = file::parsed(png, settings)->Ok_0.1;
            let raw = file::expanded(view, idat, settings.checks)->Ok_0;
            common::lemma_sizes(view);
            file::lemma_pixels_len(view, raw);
        }
    }
}

/// An image that was decoded can always be encoded again, and decoding that gives the same
/// pixels and the same description, sequential.
pub proof fn law_decoded_image_encodes(
    png: Seq<u8>,
    settings: Settings,
    strategy: FilterStrategy,
    again: Settings,
)
    requires
        file::decoded(png, settings) matches Ok(image) && file::within(
            image.info.sequential_size(),
            again.limit,
        ),
    ensures
        ({
            let image = file::decoded(png, settings)->Ok_0;
            &&& writing::encoded(image.info, image.data, strategy) == Ok::<Seq<u8>, Error>(
                writing::file_bytes(image.info, image.data, strategy),
            )
            &&& file::decoded(writing::file_bytes(image.info, image.data, strategy), again) == Ok::<
                ImageView,
                Error,
            >(ImageView { info: read_back(image.info, again.keep), data: image.data })
        }),
{
    let image = file::decoded(png, settings)->Ok_0;
    lemma_decoded(png, settings);
    lemma_chunks_checked(image.info.metadata);
    law_file_reads_back(image.info, image.data, strategy, again);
}

/// Everything that a decode keeps is a chunk that the encoder writes.
pub proof fn law_kept_chunks_are_writable(png: Seq<u8>, settings: Settings, i: int)
    ensures
        file::decoded(png, settings) matches Ok(image) ==> 0 <= i < image.info.metadata.len()
            ==> image.info.metadata[i].checked() is Ok,
{
    lemma_decoded(png, settings);
}

/// An image that was decoded converts, if the result can be addressed: its data is all there,
/// and no pixel of it lacks a palette entry.
pub proof fn law_decoded_image_converts(png: Seq<u8>, settings: Settings, channels: int)
    ensures
        file::decoded(png, settings) matches Ok(image) ==> {
            &&& image.info.width * image.info.height * channels <= isize::MAX
                ==> transform::convertible(image, channels)
            &&& transform::converted(image, channels) == Ok::<Seq<u8>, Error>(
                transform::image_pixels(image.info, image.data, channels, image.info.height as nat),
            )
        },
{
    lemma_decoded(png, settings);
    if let Ok(image) = file::decoded(png, settings) {
        let info = image.info;
        if info.color_type is Indexed {
            let entries = (info.palette->0.len() / 3) as int;
            assert forall|x: int, y: int|
                0 <= x < info.width && 0 <= y < info.height implies #[trigger] transform::entry_exists(
                info,
                file::row_at(image.data, y, info.row_bytes()),
                x,
            ) by {
                let row = file::row_at(image.data, y, info.row_bytes());
                assert(file::index_at(info, image.data, x, y) < entries);
                assert(info.bits() == common::depth_bits(info.bit_depth));
                if info.bits() == 8 {
                    common::lemma_sizes(info);
                    interlace::lemma_cells(info.width as int, 8);
                    interlace::lemma_row_place(y, info.height as int, info.row_bytes());
                    assert(info.row_bytes() == info.width);
                    interlace::lemma_byte_pixel(row, x);
                }
                assert(transform::sample_of(row, x, info.bits()) == file::index_at(
                    info,
                    image.data,
                    x,
                    y,
                ));
            }
        }
    }
}

// ---------------------------------------------------------------------------------------
// Damage
// ---------------------------------------------------------------------------------------

/// Whether `bytes` from `p` on are made of whole chunks, whatever their checksums.
pub open spec fn whole_chunks(bytes: Seq<u8>, p: int) -> bool
    decreases bytes.len() - p,
{
    if p >= bytes.len() {
        p == bytes.len()
    } else {
        let end = p + 12 + stream::be32(bytes, p);
        &&& p + 8 <= bytes.len()
        &&& stream::be32(bytes, p) <= common::MAX_CHUNK_BYTES
        &&& end <= bytes.len()
        &&& whole_chunks(bytes, end)
    }
}

/// Whether `bytes` are an ancillary chunk whose checksum is wrong.
pub open spec fn damaged_chunk(bytes: Seq<u8>) -> bool {
    &&& bytes.len() >= 12
    &&& stream::be32(bytes, 0) <= common::MAX_CHUNK_BYTES
    &&& bytes.len() == 12 + stream::be32(bytes, 0)
    &&& !common::critical(file::kind_at(bytes, 4))
    &&& crc32::checksum(bytes.subrange(4, bytes.len() - 4)) != stream::be32(bytes, bytes.len() - 4)
}

/// What is found, `by` bytes further on.
pub open spec fn moved(result: Result<Option<Found>, Error>, by: int) -> Result<Option<Found>, Error> {
    match result {
        Ok(Some(found)) => Ok(Some(Found { end: found.end + by, ..found })),
        other => other,
    }
}

/// A chunk is found by what stands from its place on.
pub proof fn lemma_moved(front: Seq<u8>, rest: Seq<u8>, q: int, verify: bool)
    requires
        0 <= q,
    ensures
        file::next_chunk(front + rest, front.len() + q, verify) == moved(
            file::next_chunk(rest, q, verify),
            front.len() as int,
        ),
    decreases rest.len() - q,
{
    let png = front + rest;
    let n = front.len() as int;
    if q < rest.len() && q + 8 <= rest.len() {
        assert(stream::be32(png, n + q) == stream::be32(rest, q));
        assert(file::kind_at(png, n + q + 4) =~= file::kind_at(rest, q + 4));
        let end = q + 12 + stream::be32(rest, q);
        if end <= rest.len() {
            assert(png.subrange(n + q + 4, n + end - 4) =~= rest.subrange(q + 4, end - 4));
            assert(png.subrange(n + q + 8, n + end - 4) =~= rest.subrange(q + 8, end - 4));
            assert(stream::be32(png, n + end - 4) == stream::be32(rest, end - 4));
            lemma_moved(front, rest, end, verify);
        }
    }
}

/// What a file says from a place on depends on what stands there alone.
pub proof fn lemma_contents_moved(
    front: Seq<u8>,
    rest: Seq<u8>,
    q: int,
    verify: bool,
    keep: Keep,
    contents: Contents,
)
    requires
        0 <= q,
    ensures
        file::contents_from(front + rest, front.len() + q, verify, keep, contents)
            == file::contents_from(rest, q, verify, keep, contents),
    decreases rest.len() - q,
{
    lemma_moved(front, rest, q, verify);
    file::lemma_next_chunk(rest, q, verify);
    if let Ok(Some(found)) = file::next_chunk(rest, q, verify) {
        if found.kind == common::IEND {
        } else if found.kind == common::IDAT {
            lemma_contents_moved(
                front,
                rest,
                found.end,
                verify,
                keep,
                file::with_idat(contents, found.data),
            );
        } else {
            if let Ok(info) = file::absorbed(
                contents.info,
                found.kind,
                found.data,
                keep,
                contents.idat is None,
            ) {
                lemma_contents_moved(
                    front,
                    rest,
                    found.end,
                    verify,
                    keep,
                    Contents { info, ..contents },
                );
            }
        }
    }
}

/// Whether the next chunk from `p` on lies in the front that two files share, or is the first
/// behind it.
spec fn same_next(front: Seq<u8>, bad: Seq<u8>, rest: Seq<u8>, p: int) -> bool {
    let a = file::next_chunk(front + bad + rest, p, true);
    let b = file::next_chunk(front + rest, p, true);
    let behind = file::next_chunk(rest, 0, true);
    ||| a == b && a is Err
    ||| a == b && (a matches Ok(Some(found)) && found.end <= front.len() && whole_chunks(
        front,
        found.end,
    ))
    ||| a == moved(behind, (front.len() + bad.len()) as int) && b == moved(
        behind,
        front.len() as int,
    )
}

proof fn lemma_same_next(front: Seq<u8>, bad: Seq<u8>, rest: Seq<u8>, p: int)
    requires
        damaged_chunk(bad),
        0 <= p <= front.len(),
        whole_chunks(front, p),
    ensures
        same_next(front, bad, rest, p),
    decreases front.len() - p,
{
    assert(front + bad + rest =~= front + (bad + rest));
    if p == front.len() {
        lemma_moved(front, bad + rest, 0, true);
        lemma_moved(bad, rest, 0, true);
        lemma_moved(front, rest, 0, true);
        damage::lemma_step(bad, rest, 0, true);
    } else {
        damage::lemma_step(front, bad + rest, p, true);
        damage::lemma_step(front, rest, p, true);
        lemma_same_next(front, bad, rest, p + 12 + stream::be32(front, p));
    }
}

proof fn lemma_damage_ignored(
    front: Seq<u8>,
    bad: Seq<u8>,
    rest: Seq<u8>,
    p: int,
    keep: Keep,
    contents: Contents,
)
    requires
        damaged_chunk(bad),
        0 <= p <= front.len(),
        whole_chunks(front, p),
    ensures
        file::contents_from(front + bad + rest, p, true, keep, contents) == file::contents_from(
            front + rest,
            p,
            true,
            keep,
            contents,
        ),
    decreases front.len() - p,
{
    let png = front + bad + rest;
    let other = front + rest;
    lemma_same_next(front, bad, rest, p);
    file::lemma_next_chunk(png, p, true);
    file::lemma_next_chunk(other, p, true);
    let a = file::next_chunk(png, p, true);
    if let Ok(Some(found)) = a {
        if a == file::next_chunk(other, p, true) && found.end <= front.len() && whole_chunks(
            front,
            found.end,
        ) {
            if found.kind == common::IEND {
            } else if found.kind == common::IDAT {
                lemma_damage_ignored(
                    front,
                    bad,
                    rest,
                    found.end,
                    keep,
                    file::with_idat(contents, found.data),
                );
            } else {
                if let Ok(info) = file::absorbed(
                    contents.info,
                    found.kind,
                    found.data,
                    keep,
                    contents.idat is None,
                ) {
                    lemma_damage_ignored(
                        front,
                        bad,
                        rest,
                        found.end,
                        keep,
                        Contents { info, ..contents },
                    );
                }
            }
        } else {
            lemma_tails_agree(front, bad, rest, keep, contents, p);
        }
    }
}

/// Two files whose next chunk is the first of the same tail say the same from there on.
proof fn lemma_tails_agree(
    front: Seq<u8>,
    bad: Seq<u8>,
    rest: Seq<u8>,
    keep: Keep,
    contents: Contents,
    p: int,
)
    requires
        file::next_chunk(front + bad + rest, p, true) == moved(
            file::next_chunk(rest, 0, true),
            (front.len() + bad.len()) as int,
        ),
        file::next_chunk(front + rest, p, true) == moved(
            file::next_chunk(rest, 0, true),
            front.len() as int,
        ),
    ensures
        file::contents_from(front + bad + rest, p, true, keep, contents) == file::contents_from(
            front + rest,
            p,
            true,
            keep,
            contents,
        ),
{
    file::lemma_next_chunk(front + bad + rest, p, true);
    file::lemma_next_chunk(front + rest, p, true);
    file::lemma_next_chunk(rest, 0, true);
    if let Ok(Some(found)) = file::next_chunk(rest, 0, true) {
        let next = if found.kind == common::IDAT {
            file::with_idat(contents, found.data)
        } else {
            match file::absorbed(
                contents.info,
                found.kind,
                found.data,
                keep,
                contents.idat is None,
            ) {
                Ok(info) => Contents { info, ..contents },
                Err(_) => contents,
            }
        };
        lemma_contents_moved(front + bad, rest, found.end, true, keep, next);
        lemma_contents_moved(front, rest, found.end, true, keep, next);
    }
}

/// An ancillary chunk whose checksum is wrong is dropped, and nothing else is: the file reads
/// as if the chunk were not there, wherever among the chunks it stands.
#[verifier::rlimit(30)]
pub proof fn law_damaged_ancillary_chunk_is_dropped(
    front: Seq<u8>,
    bad: Seq<u8>,
    rest: Seq<u8>,
    settings: Settings,
)
    requires
        settings.checks !is Nothing,
        file::signed(front),
        whole_chunks(front, 8),
        damaged_chunk(bad),
    ensures
        file::decoded(front + bad + rest, settings) == file::decoded(front + rest, settings),
{
    let png = front + bad + rest;
    let other = front + rest;
    assert(png.take(8) =~= front.take(8));
    assert(other.take(8) =~= front.take(8));
    lemma_same_next(front, bad, rest, 8);
    let a = file::next_chunk(png, 8, true);
    let b = file::next_chunk(other, 8, true);
    file::lemma_next_chunk(png, 8, true);
    file::lemma_next_chunk(rest, 0, true);
    if let Ok(Some(found)) = a {
        if let Ok(info) = file::header(found.data) {
            let contents = Contents { info, idat: None };
            if a == b && found.end <= front.len() && whole_chunks(front, found.end) {
                lemma_damage_ignored(front, bad, rest, found.end, settings.keep, contents);
            } else {
                let behind = file::next_chunk(rest, 0, true)->Ok_0->0;
                lemma_contents_moved(
                    front + bad,
                    rest,
                    behind.end,
                    true,
                    settings.keep,
                    contents,
                );
                lemma_contents_moved(front, rest, behind.end, true, settings.keep, contents);
            }
        }
    }
}

/// Whether whole chunks, none of them the end of the file, lead from `p` to `at`.
pub open spec fn leads_to(png: Seq<u8>, p: int, at: int) -> bool
    decreases at - p,
{
    if p >= at {
        p == at
    } else {
        let end = p + 12 + stream::be32(png, p);
        &&& 0 <= p && p + 8 <= png.len()
        &&& stream::be32(png, p) <= common::MAX_CHUNK_BYTES
        &&& end <= at <= png.len()
        &&& file::kind_at(png, p + 4) != common::IEND
        &&& leads_to(png, end, at)
    }
}

/// Whether a critical chunk with a wrong checksum stands at `at`.
pub open spec fn damaged_critical(png: Seq<u8>, at: int) -> bool {
    let end = at + 12 + stream::be32(png, at);
    &&& 0 <= at && at + 8 <= png.len()
    &&& stream::be32(png, at) <= common::MAX_CHUNK_BYTES
    &&& end <= png.len()
    &&& common::critical(file::kind_at(png, at + 4))
    &&& crc32::checksum(png.subrange(at + 4, end - 4)) != stream::be32(png, end - 4)
}

/// On the way to a damaged critical chunk every chunk that is found lies in front of it.
proof fn lemma_found_before(png: Seq<u8>, p: int, at: int)
    requires
        0 <= p,
        leads_to(png, p, at),
        damaged_critical(png, at),
    ensures
        match file::next_chunk(png, p, true) {
            Err(_) => true,
            Ok(None) => false,
            Ok(Some(found)) => {
                &&& p < found.end <= at
                &&& found.kind != common::IEND
                &&& leads_to(png, found.end, at)
            },
        },
    decreases at - p,
{
    if p < at {
        let end = p + 12 + stream::be32(png, p);
        lemma_found_before(png, end, at);
    }
}

proof fn lemma_damage_found(png: Seq<u8>, p: int, at: int, keep: Keep, contents: Contents)
    requires
        0 <= p,
        leads_to(png, p, at),
        damaged_critical(png, at),
    ensures
        file::contents_from(png, p, true, keep, contents) is Err,
    decreases at - p,
{
    lemma_found_before(png, p, at);
    if let Ok(Some(found)) = file::next_chunk(png, p, true) {
        if found.kind == common::IDAT {
            lemma_damage_found(png, found.end, at, keep, file::with_idat(contents, found.data));
        } else if let Ok(info) = file::absorbed(
            contents.info,
            found.kind,
            found.data,
            keep,
            contents.idat is None,
        ) {
            lemma_damage_found(png, found.end, at, keep, Contents { info, ..contents });
        }
    }
}

/// A file with a damaged critical chunk is refused, wherever in front of its end the chunk
/// stands, unless checksums are not looked at.
pub proof fn law_damaged_critical_chunk_is_refused(png: Seq<u8>, at: int, settings: Settings)
    requires
        settings.checks !is Nothing,
        leads_to(png, 8, at),
        damaged_critical(png, at),
    ensures
        file::decoded(png, settings) is Err,
{
    lemma_found_before(png, 8, at);
    if let Ok((info, p)) = file::opened(png, true) {
        lemma_damage_found(png, p, at, settings.keep, Contents { info, idat: None });
    }
}

// ---------------------------------------------------------------------------------------
// Conversions
// ---------------------------------------------------------------------------------------

/// Pixels of four bytes with the last byte of each left out.
pub open spec fn without_alpha(rgba: Seq<u8>) -> Seq<u8> {
    Seq::new(rgba.len() / 4 * 3, |i: int| rgba[i / 3 * 4 + i % 3])
}

proof fn lemma_without_alpha(a: Seq<u8>, b: Seq<u8>)
    requires
        a.len() % 4 == 0,
        b.len() % 4 == 0,
    ensures
        without_alpha(a + b) == without_alpha(a) + without_alpha(b),
{
    assert(without_alpha(a + b) =~= without_alpha(a) + without_alpha(b));
}

#[verifier::rlimit(30)]
proof fn lemma_row_without_alpha(info: InfoView, row: Seq<u8>, n: nat)
    ensures
        transform::row_pixels(info, row, 4, n).len() == 4 * n,
        transform::row_pixels(info, row, 3, n) == without_alpha(
            transform::row_pixels(info, row, 4, n),
        ),
    decreases n,
{
    if n == 0 {
        assert(without_alpha(Seq::empty()) =~= Seq::<u8>::empty());
    } else {
        lemma_row_without_alpha(info, row, (n - 1) as nat);
        let pixel = transform::rgba_of(info, row, n - 1);
        assert(pixel.take(4) =~= pixel);
        assert(without_alpha(pixel) =~= pixel.take(3));
        lemma_without_alpha(transform::row_pixels(info, row, 4, (n - 1) as nat), pixel);
    }
}

proof fn lemma_image_without_alpha(info: InfoView, data: Seq<u8>, n: nat)
    ensures
        transform::image_pixels(info, data, 4, n).len() % 4 == 0,
        transform::image_pixels(info, data, 3, n) == without_alpha(
            transform::image_pixels(info, data, 4, n),
        ),
    decreases n,
{
    if n == 0 {
        assert(without_alpha(Seq::empty()) =~= Seq::<u8>::empty());
    } else {
        lemma_image_without_alpha(info, data, (n - 1) as nat);
        let row = file::row_at(data, n - 1, info.row_bytes());
        lemma_row_without_alpha(info, row, info.width as nat);
        lemma_without_alpha(
            transform::image_pixels(info, data, 4, (n - 1) as nat),
            transform::row_pixels(info, row, 4, info.width as nat),
        );
    }
}

/// The RGB conversion is the RGBA conversion without the alpha bytes, and fails where it fails.
pub proof fn law_rgb_is_rgba_without_alpha(image: ImageView)
    ensures
        match transform::converted(image, 4) {
            Ok(rgba) => transform::converted(image, 3) == Ok::<Seq<u8>, Error>(without_alpha(rgba)),
            Err(error) => transform::converted(image, 3) == Err::<Seq<u8>, Error>(error),
        },
{
    lemma_image_without_alpha(image.info, image.data, image.info.height as nat);
}

/// A conversion has one group of bytes per pixel.
pub proof fn law_conversion_length(image: ImageView, channels: int)
    requires
        channels == 3 || channels == 4,
    ensures
        transform::converted(image, channels) matches Ok(bytes) ==> bytes.len()
            == image.info.height * (image.info.width * channels),
{
    lemma_image_len(image.info, image.data, channels, image.info.height as nat);
}

proof fn lemma_row_len(info: InfoView, row: Seq<u8>, channels: int, n: nat)
    requires
        channels == 3 || channels == 4,
    ensures
        transform::row_pixels(info, row, channels, n).len() == n * channels,
    decreases n,
{
    if n > 0 {
        lemma_row_len(info, row, channels, (n - 1) as nat);
    }
}

proof fn lemma_image_len(info: InfoView, data: Seq<u8>, channels: int, n: nat)
    requires
        channels == 3 || channels == 4,
    ensures
        transform::image_pixels(info, data, channels, n).len() == n * (info.width * channels),
    decreases n,
{
    let per = info.width * channels;
    if n > 0 {
        lemma_image_len(info, data, channels, (n - 1) as nat);
        lemma_row_len(
            info,
            file::row_at(data, n - 1, info.row_bytes()),
            channels,
            info.width as nat,
        );
        assert(n * per == (n - 1) * per + per) by (nonlinear_arith);
    } else {
        assert(n * per == 0) by (nonlinear_arith)
            requires
                n == 0,
        ;
    }
}

// ---------------------------------------------------------------------------------------
// Sizes
// ---------------------------------------------------------------------------------------

/// A grid takes no more positions than fit.
proof fn lemma_taken_bound(length: int, start: int, step: int)
    requires
        interlace::grid(start, step),
        0 <= length,
    ensures
        0 <= step * common::taken(length, start, step) <= length + 7,
{
    if step == 1 {
    } else if step == 2 {
    } else if step == 4 {
    } else {
    }
}

/// How much of an image one pass carries, in 64ths.
spec fn share(pass: int) -> int {
    if pass <= 1 {
        1
    } else if pass == 2 {
        2
    } else if pass == 3 {
        4
    } else if pass == 4 {
        8
    } else if pass == 5 {
        16
    } else {
        32
    }
}

/// A pass that takes one pixel in so many carries that share.
proof fn lemma_share(pass: int)
    requires
        0 <= pass < 7,
    ensures
        share(pass) * common::ADAM7_PASSES[pass].2 * common::ADAM7_PASSES[pass].3 == 64,
{
    let (xs, ys, xt, yt) = common::ADAM7_PASSES[pass];
    let k = share(pass);
    if pass == 0 || pass == 1 {
        assert(k == 1 && xt == 8 && yt == 8);
    } else if pass == 2 {
        assert(k == 2 && xt == 4 && yt == 8);
    } else if pass == 3 {
        assert(k == 4 && xt == 4 && yt == 4);
    } else if pass == 4 {
        assert(k == 8 && xt == 2 && yt == 4);
    } else if pass == 5 {
        assert(k == 16 && xt == 2 && yt == 2);
    } else {
        assert(k == 32 && xt == 1 && yt == 2);
    }
    assert(k * xt * yt == 64) by (nonlinear_arith)
        requires
            k == 1 && xt == 8 && yt == 8 || k == 2 && xt == 4 && yt == 8 || k == 4 && xt == 4 && yt
                == 4 || k == 8 && xt == 2 && yt == 4 || k == 16 && xt == 2 && yt == 2 || k == 32
                && xt == 1 && yt == 2,
    ;
}

proof fn lemma_pass_bound(w: int, h: int, b: int, pass: int)
    requires
        0 <= w,
        0 <= h,
        1 <= b <= 64,
        0 <= pass < 7,
    ensures
        512 * common::pass_len(w, h, b, pass) <= share(pass) * (b * ((w + 7) * (h + 7))) + 1024 * (h
            + 7),
{
    let (xs, ys, xt, yt) = common::ADAM7_PASSES[pass];
    let k = share(pass);
    interlace::lemma_grids(pass);
    let across = common::pass_width(pass, w);
    let down = common::pass_height(pass, h);
    lemma_taken_bound(w, xs as int, xt as int);
    lemma_taken_bound(h, ys as int, yt as int);
    common::lemma_pass(pass, w, h);
    let area = (w + 7) * (h + 7);
    lemma_share(pass);
    assert((xt * across) * (yt * down) <= area) by (nonlinear_arith)
        requires
            0 <= xt * across <= w + 7,
            0 <= yt * down <= h + 7,
            area == (w + 7) * (h + 7),
    ;
    assert(64 * (across * down) <= k * area) by (nonlinear_arith)
        requires
            (xt * across) * (yt * down) <= area,
            k * xt * yt == 64,
            k >= 0,
    ;
    let row = common::row_len(across, b);
    assert(0 <= across * b) by (nonlinear_arith)
        requires
            0 <= across,
            1 <= b,
    ;
    assert(8 * (1 + row) <= across * b + 15);
    assert(8 * ((1 + row) * down) <= b * (across * down) + 15 * down) by (nonlinear_arith)
        requires
            8 * (1 + row) <= across * b + 15,
            0 <= down,
    ;
    assert(64 * (b * (across * down)) <= k * (b * area)) by (nonlinear_arith)
        requires
            64 * (across * down) <= k * area,
            1 <= b,
    ;
    assert(0 <= k * (b * area)) by (nonlinear_arith)
        requires
            0 <= k,
            1 <= b,
            0 <= area,
    ;
}

/// On a machine with 64-bit addresses the size of an image is bounded by its pixels and its
/// scanlines alone: the filter bytes of an interlaced image never make it too large to decode.
pub proof fn law_size_bound_on_64_bits(info: InfoView)
    requires
        usize::MAX == u64::MAX,
    ensures
        !info.too_large() ==> info.addressable(),
{
    let w = info.width as int;
    let h = info.height as int;
    let b = info.bits();
    common::lemma_bits(info);
    if w * h * b / 8 + h <= usize::MAX / 2 {
        let area = (w + 7) * (h + 7);
        assert(b * area == w * h * b + 7 * (b * w) + 7 * (b * h) + 49 * b) by (nonlinear_arith)
            requires
                area == (w + 7) * (h + 7),
        ;
        assert(0 <= b * w <= 64 * 0xffff_ffff) by (nonlinear_arith)
            requires
                1 <= b <= 64,
                0 <= w <= 0xffff_ffff,
        ;
        assert(0 <= b * h <= 64 * 0xffff_ffff) by (nonlinear_arith)
            requires
                1 <= b <= 64,
                0 <= h <= 0xffff_ffff,
        ;
        let r = info.row_bytes();
        assert(8 * r <= w * b + 7);
        assert(8 * ((1 + r) * h) <= w * h * b + 15 * h) by (nonlinear_arith)
            requires
                8 * r <= w * b + 7,
                0 <= h,
        ;
        lemma_pass_bound(w, h, b, 0);
        lemma_pass_bound(w, h, b, 1);
        lemma_pass_bound(w, h, b, 2);
        lemma_pass_bound(w, h, b, 3);
        lemma_pass_bound(w, h, b, 4);
        lemma_pass_bound(w, h, b, 5);
        lemma_pass_bound(w, h, b, 6);
        reveal_with_fuel(common::passes_len, 8);
    }
}

} // verus!
