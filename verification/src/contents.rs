//! What a file says that is put together from chunks.

use vstd::prelude::*;
use crate::cases;
use crate::common;
use crate::common::{BitDepth, ChunkView, ColorType, InfoView, Interlacing};
use crate::crc32;
use crate::decoder;
use crate::decoder::{Checks, Keep};
use crate::error::Error;
use crate::file;
use crate::file::{Contents, Found, Settings};
use crate::laws;
use crate::metadata;
use crate::stream;

verus! {

// ---------------------------------------------------------------------------------------
// Files
// ---------------------------------------------------------------------------------------

/// A chunk in a file, with four bytes in the place of its checksum.
pub struct Part {
    pub chunk: ChunkView,
    pub sum: Seq<u8>,
}

/// Four bytes, the most significant one first.
pub open spec fn four(n: int) -> Seq<u8> {
    seq![
        (n / 0x100_0000 % 0x100) as u8,
        (n / 0x1_0000 % 0x100) as u8,
        (n / 0x100 % 0x100) as u8,
        (n % 0x100) as u8,
    ]
}

/// The bytes of a part: length, type, payload, checksum.
pub open spec fn part_bytes(part: Part) -> Seq<u8> {
    four(part.chunk.data.len() as int) + part.chunk.kind@ + part.chunk.data + part.sum
}

/// Whether the checksum of a part is that of its type and payload.
pub open spec fn summed(part: Part) -> bool {
    part.sum == four(crc32::checksum(part.chunk.kind@ + part.chunk.data) as int)
}

/// Parts one after the other.
pub open spec fn parts_bytes(parts: Seq<Part>) -> Seq<u8>
    decreases parts.len(),
{
    if parts.len() == 0 {
        Seq::empty()
    } else {
        part_bytes(parts[0]) + parts_bytes(parts.skip(1))
    }
}

/// The signature that a file begins with.
pub open spec fn signature() -> Seq<u8> {
    seq![0x89u8, 0x50u8, 0x4eu8, 0x47u8, 0x0du8, 0x0au8, 0x1au8, 0x0au8]
}

pub open spec fn is_ihdr(kind: [u8; 4]) -> bool {
    kind@ == seq![0x49u8, 0x48u8, 0x44u8, 0x52u8]
}

pub open spec fn is_plte(kind: [u8; 4]) -> bool {
    kind@ == seq![0x50u8, 0x4cu8, 0x54u8, 0x45u8]
}

pub open spec fn is_trns(kind: [u8; 4]) -> bool {
    kind@ == seq![0x74u8, 0x52u8, 0x4eu8, 0x53u8]
}

pub open spec fn is_idat(kind: [u8; 4]) -> bool {
    kind@ == seq![0x49u8, 0x44u8, 0x41u8, 0x54u8]
}

pub open spec fn is_iend(kind: [u8; 4]) -> bool {
    kind@ == seq![0x49u8, 0x45u8, 0x4eu8, 0x44u8]
}

proof fn lemma_kind(kind: [u8; 4], name: [u8; 4])
    ensures
        kind == name <==> kind@ == name@,
{
    if kind@ == name@ {
        assert(kind =~= name);
    }
}

/// The named types are those that the decoder looks for.
proof fn lemma_named(kind: [u8; 4])
    ensures
        is_ihdr(kind) <==> kind == common::IHDR,
        is_plte(kind) <==> kind == common::PLTE,
        is_trns(kind) <==> kind == common::TRNS,
        is_idat(kind) <==> kind == common::IDAT,
        is_iend(kind) <==> kind == common::IEND,
{
    assert(common::IHDR@ =~= seq![0x49u8, 0x48u8, 0x44u8, 0x52u8]);
    assert(common::PLTE@ =~= seq![0x50u8, 0x4cu8, 0x54u8, 0x45u8]);
    assert(common::TRNS@ =~= seq![0x74u8, 0x52u8, 0x4eu8, 0x53u8]);
    assert(common::IDAT@ =~= seq![0x49u8, 0x44u8, 0x41u8, 0x54u8]);
    assert(common::IEND@ =~= seq![0x49u8, 0x45u8, 0x4eu8, 0x44u8]);
    lemma_kind(kind, common::IHDR);
    lemma_kind(kind, common::PLTE);
    lemma_kind(kind, common::TRNS);
    lemma_kind(kind, common::IDAT);
    lemma_kind(kind, common::IEND);
}

/// Four bytes are the number they were made of.
proof fn lemma_four(n: int, data: Seq<u8>, at: int)
    requires
        0 <= n <= 0xffff_ffff,
        0 <= at,
        at + 4 <= data.len(),
        data.subrange(at, at + 4) == four(n),
    ensures
        stream::be32(data, at) == n,
{
    let bytes = data.subrange(at, at + 4);
    assert(bytes[0] == data[at] && bytes[1] == data[at + 1] && bytes[2] == data[at + 2] && bytes[3]
        == data[at + 3]);
    let a = n / 256;
    let b = a / 256;
    let c = b / 256;
    assert(n / 0x1_0000 == b);
    assert(n / 0x100_0000 == c);
    assert(c < 256);
}

/// A part that stands in a file is found.
proof fn lemma_part_found(png: Seq<u8>, p: int, part: Part, verify: bool)
    requires
        laws::stands(png, p, part_bytes(part)),
        part.chunk.data.len() <= 0x7fff_ffff,
        part.sum.len() == 4,
        verify ==> summed(part),
    ensures
        file::next_chunk(png, p, verify) == Ok::<Option<Found>, Error>(
            Some(
                Found {
                    kind: part.chunk.kind,
                    data: part.chunk.data,
                    end: p + part_bytes(part).len(),
                },
            ),
        ),
        part_bytes(part).len() == 12 + part.chunk.data.len(),
{
    let kind = part.chunk.kind;
    let data = part.chunk.data;
    let length = four(data.len() as int);
    let end = p + 12 + data.len();
    assert(part_bytes(part) =~= length + (kind@ + data + part.sum));
    laws::lemma_stands_split(png, p, length, kind@ + data + part.sum);
    laws::lemma_stands_split(png, p + 4, kind@ + data, part.sum);
    laws::lemma_stands_split(png, p + 4, kind@, data);
    lemma_four(data.len() as int, png, p);
    if verify {
        lemma_four(crc32::checksum(kind@ + data) as int, png, end - 4);
    }
    assert(png.subrange(p + 4, end - 4) == kind@ + data);
    assert(png.subrange(p + 8, end - 4) == data);
    let found = file::kind_at(png, p + 4);
    assert(found =~= kind) by {
        let name = png.subrange(p + 4, p + 8);
        assert(name == kind@);
        assert(name[0] == found[0] && name[1] == found[1] && name[2] == found[2] && name[3]
            == found[3]);
    }
}

// ---------------------------------------------------------------------------------------
// Chunks between the header and the end
// ---------------------------------------------------------------------------------------

/// Whether a part can stand between header and end: its payload is not too long, it does not
/// end the file, and if a decoder has to know it, the decoder does.
pub open spec fn plain(part: Part, verify: bool) -> bool {
    &&& part.chunk.data.len() <= 0x7fff_ffff
    &&& part.sum.len() == 4
    &&& verify ==> summed(part)
    &&& !is_iend(part.chunk.kind)
    &&& 0x41 <= part.chunk.kind[0] <= 0x5a ==> is_plte(part.chunk.kind) || is_idat(part.chunk.kind)
    &&& is_plte(part.chunk.kind) ==> part.chunk.data.len() <= 768 && part.chunk.data.len() % 3 == 0
}

/// Whether a transparency can stand in front of the image data: two bytes for grey, six for
/// colours, up to 256 for a palette, and none where the pixels have alpha.
pub open spec fn fitting(color_type: ColorType, chunk: ChunkView) -> bool {
    is_trns(chunk.kind) ==> match color_type {
        ColorType::Grayscale => chunk.data.len() == 2,
        ColorType::Rgb => chunk.data.len() == 6,
        ColorType::Indexed => chunk.data.len() <= 256,
        _ => false,
    }
}

/// The payloads of the first `n` image data chunks and others, joined.
pub open spec fn image_data(parts: Seq<Part>, n: int) -> Seq<u8>
    decreases n,
{
    if n <= 0 {
        Seq::empty()
    } else if is_idat(parts[n - 1].chunk.kind) {
        image_data(parts, n - 1) + parts[n - 1].chunk.data
    } else {
        image_data(parts, n - 1)
    }
}

/// The metadata among the first `n` parts: what may be carried and was asked for, in order.
pub open spec fn metadata_of(parts: Seq<Part>, n: int, keep: Keep) -> Seq<ChunkView>
    decreases n,
{
    if n <= 0 {
        Seq::empty()
    } else {
        let chunk = parts[n - 1].chunk;
        let before = metadata_of(parts, n - 1, keep);
        if metadata::carriable(chunk.kind) && metadata::asks_for(keep, chunk.kind) {
            before.push(chunk)
        } else {
            before
        }
    }
}

/// Whether a part is a palette, or whether it is a transparency.
pub open spec fn sought(part: Part, palette: bool) -> bool {
    if palette {
        is_plte(part.chunk.kind)
    } else {
        is_trns(part.chunk.kind)
    }
}

/// Whether `data` is the payload of the last part before `n` that is a palette, or that is a
/// transparency, if there is one.
pub open spec fn latest(parts: Seq<Part>, n: int, palette: bool, data: Option<Seq<u8>>) -> bool {
    match data {
        None => forall|k: int| 0 <= k < n ==> !(#[trigger] sought(parts[k], palette)),
        Some(bytes) => exists|k: int|
            0 <= k < n && #[trigger] sought(parts[k], palette) && parts[k].chunk.data == bytes
                && forall|m: int|
                k < m < n ==> !(#[trigger] sought(parts[m], palette)),
    }
}

/// Whether the image data begins with part `first`, or there is none and `first` is behind
/// all parts.
pub open spec fn begins_at(parts: Seq<Part>, first: int) -> bool {
    &&& 0 <= first <= parts.len()
    &&& forall|k: int| 0 <= k < first ==> !is_idat((#[trigger] parts[k]).chunk.kind)
    &&& first < parts.len() ==> is_idat(parts[first].chunk.kind)
}

/// What the first `n` parts say.
spec fn so_far(info: InfoView, parts: Seq<Part>, n: int, keep: Keep) -> Contents
    decreases n,
{
    if n <= 0 {
        Contents { info, idat: None }
    } else {
        let before = so_far(info, parts, n - 1, keep);
        let chunk = parts[n - 1].chunk;
        if is_idat(chunk.kind) {
            file::with_idat(before, chunk.data)
        } else {
            Contents {
                info: file::absorbed(
                    before.info,
                    chunk.kind,
                    chunk.data,
                    keep,
                    before.idat is None,
                )->Ok_0,
                ..before
            }
        }
    }
}

/// Whether all parts can stand where they do.
pub open spec fn well_placed(info: InfoView, parts: Seq<Part>, first: int, verify: bool) -> bool {
    &&& begins_at(parts, first)
    &&& forall|k: int| 0 <= k < parts.len() ==> plain(#[trigger] parts[k], verify)
    &&& forall|k: int|
        0 <= k < first ==> fitting(info.color_type, (#[trigger] parts[k]).chunk)
}

/// The parts of what was read so far.
proof fn lemma_so_far(
    info: InfoView,
    parts: Seq<Part>,
    first: int,
    verify: bool,
    n: int,
    keep: Keep,
)
    requires
        well_placed(info, parts, first, verify),
        info.palette is None,
        info.transparency is None,
        info.metadata.len() == 0,
        0 <= n <= parts.len(),
    ensures
        ({
            let read = so_far(info, parts, n, keep);
            let m = if n < first {
                n
            } else {
                first
            };
            &&& read.idat == (if n <= first {
                None
            } else {
                Some(image_data(parts, n))
            })
            &&& n <= first ==> image_data(parts, n).len() == 0
            &&& latest(parts, m, true, read.info.palette)
            &&& latest(parts, m, false, read.info.transparency)
            &&& read.info.metadata == metadata_of(parts, n, keep)
            &&& read.info == InfoView {
                palette: read.info.palette,
                transparency: read.info.transparency,
                metadata: read.info.metadata,
                ..info
            }
            &&& n < parts.len() && !is_idat(parts[n].chunk.kind) ==> file::absorbed(
                read.info,
                parts[n].chunk.kind,
                parts[n].chunk.data,
                keep,
                read.idat is None,
            ) is Ok
        }),
    decreases n,
{
    let read = so_far(info, parts, n, keep);
    if n > 0 {
        let k = n - 1;
        let chunk = parts[k].chunk;
        lemma_so_far(info, parts, first, verify, k, keep);
        let before = so_far(info, parts, k, keep);
        lemma_named(chunk.kind);
        metadata::law_metadata_types(chunk.kind);
        if !is_idat(chunk.kind) {
            lemma_absorbs(before.info, parts[k], first > k, verify, keep);
        }
        assert(chunk == ChunkView { kind: chunk.kind, data: chunk.data });
        if k < first {
            lemma_latest(parts, k, true, before.info.palette, read.info.palette);
            lemma_latest(parts, k, false, before.info.transparency, read.info.transparency);
        } else if k == first {
            assert(image_data(parts, k) + chunk.data =~= chunk.data);
        }
    } else {
        assert(info.metadata =~= Seq::empty());
    }
    if n < parts.len() {
        assert(plain(parts[n], verify));
        assert(n < first ==> fitting(info.color_type, parts[n].chunk));
        if !is_idat(parts[n].chunk.kind) {
            lemma_absorbs(read.info, parts[n], first > n, verify, keep);
        }
    }
}

/// What one part adds.
proof fn lemma_absorbs(info: InfoView, part: Part, early: bool, verify: bool, keep: Keep)
    requires
        plain(part, verify),
        !is_idat(part.chunk.kind),
        early ==> fitting(info.color_type, part.chunk),
    ensures
        file::absorbed(info, part.chunk.kind, part.chunk.data, keep, early) == Ok::<InfoView, Error>(
            InfoView {
                palette: if early && is_plte(part.chunk.kind) {
                    Some(part.chunk.data)
                } else {
                    info.palette
                },
                transparency: if early && is_trns(part.chunk.kind) {
                    Some(part.chunk.data)
                } else {
                    info.transparency
                },
                metadata: if metadata::carriable(part.chunk.kind) && metadata::asks_for(
                    keep,
                    part.chunk.kind,
                ) {
                    info.metadata.push(part.chunk)
                } else {
                    info.metadata
                },
                ..info
            },
        ),
{
    let kind = part.chunk.kind;
    lemma_named(kind);
    metadata::law_metadata_types(kind);
    laws::lemma_kinds();
    assert(part.chunk == ChunkView { kind, data: part.chunk.data });
    assert(file::wanted(keep, kind) == metadata::asks_for(keep, kind)) by {
        if let Keep::Only(kinds) = keep {
            if kinds@.contains(kind) {
                let i = choose|i: int| 0 <= i < kinds@.len() && kinds@[i] == kind;
                assert(kinds@[i] == kind);
            }
        }
    }
}

/// The latest of a kind with one more part.
proof fn lemma_latest(
    parts: Seq<Part>,
    n: int,
    palette: bool,
    before: Option<Seq<u8>>,
    after: Option<Seq<u8>>,
)
    requires
        0 <= n < parts.len(),
        latest(parts, n, palette, before),
        after == (if palette && is_plte(parts[n].chunk.kind) || !palette && is_trns(
            parts[n].chunk.kind,
        ) {
            Some(parts[n].chunk.data)
        } else {
            before
        }),
    ensures
        latest(parts, n + 1, palette, after),
{
    if sought(parts[n], palette) {
        assert(0 <= n < n + 1 && sought(parts[n], palette) && parts[n].chunk.data == after->0);
    } else {
        match before {
            None => {
                assert forall|k: int| 0 <= k < n + 1 implies !(#[trigger] sought(
                    parts[k],
                    palette,
                )) by {
                    if k < n {
                        assert(!sought(parts[k], palette));
                    }
                }
            },
            Some(bytes) => {
                let k = choose|k: int|
                    0 <= k < n && #[trigger] sought(parts[k], palette) && parts[k].chunk.data == bytes
                && forall|m: int|
                        k < m < n ==> !(#[trigger] sought(parts[m], palette));
                assert forall|m: int| k < m < n + 1 implies !(#[trigger] sought(
                    parts[m],
                    palette,
                )) by {
                    if m < n {
                        assert(!sought(parts[m], palette));
                    }
                }
                assert(sought(parts[k], palette));
            },
        }
    }
}

/// The bytes of parts with one more.
proof fn lemma_parts_split(parts: Seq<Part>, n: int)
    requires
        0 <= n < parts.len(),
    ensures
        parts_bytes(parts) == parts_bytes(parts.take(n)) + (part_bytes(parts[n]) + parts_bytes(
            parts.skip(n + 1),
        )),
        parts_bytes(parts.take(n + 1)) == parts_bytes(parts.take(n)) + part_bytes(parts[n]),
    decreases n,
{
    if n == 0 {
        assert(parts.take(0) =~= Seq::empty());
        assert(parts.take(1).skip(1) =~= Seq::empty());
        assert(parts_bytes(parts.take(1).skip(1)) =~= Seq::empty());
        assert(parts_bytes(parts) =~= parts_bytes(parts.take(0)) + (part_bytes(parts[0])
            + parts_bytes(parts.skip(1))));
        assert(parts_bytes(parts.take(1)) =~= parts_bytes(parts.take(0)) + part_bytes(parts[0]));
    } else {
        let rest = parts.skip(1);
        lemma_parts_split(rest, n - 1);
        assert(rest.take(n - 1) =~= parts.take(n).skip(1));
        assert(rest.take(n) =~= parts.take(n + 1).skip(1));
        assert(rest.skip(n) =~= parts.skip(n + 1));
        assert(parts.take(n)[0] == parts[0] && parts.take(n + 1)[0] == parts[0]);
        let a = part_bytes(parts[0]);
        let b = parts_bytes(rest.take(n - 1));
        let c = part_bytes(parts[n]);
        let d = parts_bytes(parts.skip(n + 1));
        assert(a + (b + (c + d)) =~= (a + b) + (c + d));
        assert(a + (b + c) =~= (a + b) + c);
    }
}

/// The parts of a file are read one after the other.
proof fn lemma_parts_read(
    png: Seq<u8>,
    p: int,
    info: InfoView,
    parts: Seq<Part>,
    first: int,
    verify: bool,
    n: int,
    keep: Keep,
)
    requires
        laws::stands(png, p, parts_bytes(parts)),
        well_placed(info, parts, first, verify),
        info.palette is None,
        info.transparency is None,
        info.metadata.len() == 0,
        0 <= n <= parts.len(),
    ensures
        file::contents_from(png, p, verify, keep, Contents { info, idat: None })
            == file::contents_from(
            png,
            p + parts_bytes(parts.take(n)).len(),
            verify,
            keep,
            so_far(info, parts, n, keep),
        ),
    decreases n,
{
    if n == 0 {
        assert(parts.take(0) =~= Seq::empty());
    } else {
        let k = n - 1;
        lemma_parts_read(png, p, info, parts, first, verify, k, keep);
        lemma_parts_split(parts, k);
        let a = parts_bytes(parts.take(k));
        let b = part_bytes(parts[k]);
        let c = parts_bytes(parts.skip(k + 1));
        laws::lemma_stands_split(png, p, a, b + c);
        laws::lemma_stands_split(png, p + a.len(), b, c);
        assert(plain(parts[k], verify));
        lemma_part_found(png, p + a.len(), parts[k], verify);
        lemma_so_far(info, parts, first, verify, k, keep);
        lemma_named(parts[k].chunk.kind);
        laws::lemma_kinds();
    }
}

/// A file that is put together from a header, other parts and an end, with whatever bytes
/// behind it. Nothing is asked of the checksums.
pub open spec fn file_of(header: Part, parts: Seq<Part>, end: Part, rest: Seq<u8>) -> Seq<u8> {
    signature() + part_bytes(header) + parts_bytes(parts) + part_bytes(end) + rest
}

/// Whether a part is a header that says `info`.
pub open spec fn heads(header: Part, info: InfoView, verify: bool) -> bool {
    &&& is_ihdr(header.chunk.kind)
    &&& header.sum.len() == 4
    &&& verify ==> summed(header)
    &&& file::header(header.chunk.data) == Ok::<InfoView, Error>(info)
}

/// Whether a file is put together from a header that says `info`, parts that can stand where
/// they do, the image data beginning with part `first`, and an end, all with their checksums
/// if those are verified.
pub open spec fn well_made(
    header: Part,
    info: InfoView,
    parts: Seq<Part>,
    first: int,
    end: Part,
    verify: bool,
) -> bool {
    &&& heads(header, info, verify)
    &&& well_placed(info, parts, first, verify)
    &&& is_iend(end.chunk.kind)
    &&& end.chunk.data.len() <= 0x7fff_ffff
    &&& end.sum.len() == 4
    &&& verify ==> summed(end)
}

/// What a file says. Its palette and its transparency are the last ones in front of the image
/// data, those behind are as if they were not there, and so is everything behind the end. Its
/// image data are the payloads of all its image data chunks, joined. Its metadata are the
/// chunks that may be carried and were asked for, in order. The rest stands in its header.
///
/// With checksums left out, any four bytes may stand in their place.
pub proof fn law_file_says(
    header: Part,
    info: InfoView,
    parts: Seq<Part>,
    first: int,
    end: Part,
    rest: Seq<u8>,
    settings: Settings,
)
    requires
        well_made(header, info, parts, first, end, settings.checks !is Nothing),
        first < parts.len(),
        info.decompressed_size() <= usize::MAX,
        settings.limit matches Some(most) ==> info.decompressed_size() <= most,
        info.interlacing is Adam7 ==> info.addressable(),
        info.color_type is Indexed ==> exists|k: int|
            0 <= k < first && is_plte((#[trigger] parts[k]).chunk.kind),
    ensures
        file::parsed(file_of(header, parts, end, rest), settings) matches Ok((view, data)) && {
            &&& data == image_data(parts, parts.len() as int)
            &&& latest(parts, first, true, view.palette)
            &&& latest(parts, first, false, view.transparency)
            &&& view.metadata == metadata_of(parts, parts.len() as int, settings.keep)
            &&& view == InfoView {
                palette: view.palette,
                transparency: view.transparency,
                metadata: view.metadata,
                ..info
            }
        },
{
    let png = file_of(header, parts, end, rest);
    let verify = settings.checks !is Nothing;
    let keep = settings.keep;
    let n = parts.len() as int;
    lemma_file_stands(header, parts, end, rest);
    let p = 8 + part_bytes(header).len() as int;
    let q = p + parts_bytes(parts).len();
    lemma_named(header.chunk.kind);
    lemma_named(end.chunk.kind);
    lemma_part_found(png, 8, header, verify);
    assert(file::opened(png, verify) == Ok::<(InfoView, int), Error>((info, p)));
    lemma_parts_read(png, p, info, parts, first, verify, n, keep);
    assert(parts.take(n) =~= parts);
    lemma_so_far(info, parts, first, verify, n, keep);
    lemma_part_found(png, q, end, verify);
    let read = so_far(info, parts, n, keep);
    assert(file::contents_from(png, p, verify, keep, Contents { info, idat: None }) == Ok::<
        Contents,
        Error,
    >(read));
    if info.color_type is Indexed {
        let k = choose|k: int| 0 <= k < first && is_plte((#[trigger] parts[k]).chunk.kind);
        assert(sought(parts[k], true));
        assert(read.info.palette is Some);
    }
    assert(info.checked() is Ok);
    common::lemma_sizes(info);
    assert(read.info.decompressed_size() == info.decompressed_size());
}

/// Where the parts of a file stand.
proof fn lemma_file_stands(header: Part, parts: Seq<Part>, end: Part, rest: Seq<u8>)
    ensures
        ({
            let png = file_of(header, parts, end, rest);
            let p = 8 + part_bytes(header).len() as int;
            let q = p + parts_bytes(parts).len();
            &&& file::signed(png)
            &&& laws::stands(png, 8, part_bytes(header))
            &&& laws::stands(png, p, parts_bytes(parts))
            &&& laws::stands(png, q, part_bytes(end))
        }),
{
    let png = file_of(header, parts, end, rest);
    let a = signature();
    let b = part_bytes(header);
    let c = parts_bytes(parts);
    let d = part_bytes(end);
    assert(laws::stands(png, 0, png)) by {
        assert(png.subrange(0, png.len() as int) =~= png);
    }
    laws::lemma_stands_split(png, 0, a + b + c + d, rest);
    laws::lemma_stands_split(png, 0, a + b + c, d);
    laws::lemma_stands_split(png, 0, a + b, c);
    laws::lemma_stands_split(png, 0, a, b);
    assert(png.take(8) =~= a);
    assert(common::SIGNATURE@ =~= signature());
}

// ---------------------------------------------------------------------------------------
// The header
// ---------------------------------------------------------------------------------------

/// The parts in front of the image data are read one after the other.
proof fn lemma_front_read(
    png: Seq<u8>,
    p: int,
    info: InfoView,
    parts: Seq<Part>,
    first: int,
    verify: bool,
    n: int,
    keep: Keep,
)
    requires
        laws::stands(png, p, parts_bytes(parts)),
        well_placed(info, parts, first, verify),
        info.palette is None,
        info.transparency is None,
        info.metadata.len() == 0,
        0 <= n <= first,
    ensures
        file::header_from(png, p, verify, keep, info) == file::header_from(
            png,
            p + parts_bytes(parts.take(n)).len(),
            verify,
            keep,
            so_far(info, parts, n, keep).info,
        ),
    decreases n,
{
    if n == 0 {
        assert(parts.take(0) =~= Seq::empty());
    } else {
        let k = n - 1;
        lemma_front_read(png, p, info, parts, first, verify, k, keep);
        lemma_parts_split(parts, k);
        let a = parts_bytes(parts.take(k));
        let b = part_bytes(parts[k]);
        let c = parts_bytes(parts.skip(k + 1));
        laws::lemma_stands_split(png, p, a, b + c);
        laws::lemma_stands_split(png, p + a.len(), b, c);
        assert(plain(parts[k], verify));
        lemma_part_found(png, p + a.len(), parts[k], verify);
        lemma_so_far(info, parts, first, verify, k, keep);
        lemma_named(parts[k].chunk.kind);
        laws::lemma_kinds();
    }
}

/// Where the front of a file stands.
proof fn lemma_front_stands(header: Part, parts: Seq<Part>, rest: Seq<u8>)
    ensures
        ({
            let png = signature() + part_bytes(header) + parts_bytes(parts) + rest;
            &&& file::signed(png)
            &&& laws::stands(png, 8, part_bytes(header))
            &&& laws::stands(png, 8 + part_bytes(header).len() as int, parts_bytes(parts))
        }),
{
    let a = signature();
    let b = part_bytes(header);
    let c = parts_bytes(parts);
    let png = a + b + c + rest;
    assert(laws::stands(png, 0, png)) by {
        assert(png.subrange(0, png.len() as int) =~= png);
    }
    laws::lemma_stands_split(png, 0, a + b + c, rest);
    laws::lemma_stands_split(png, 0, a + b, c);
    laws::lemma_stands_split(png, 0, a, b);
    assert(png.take(8) =~= a);
    assert(common::SIGNATURE@ =~= signature());
}

/// Reading the header stops at the image data.
proof fn lemma_data_reached(
    png: Seq<u8>,
    p: int,
    info: InfoView,
    parts: Seq<Part>,
    first: int,
    verify: bool,
    keep: Keep,
)
    requires
        laws::stands(png, p, parts_bytes(parts)),
        well_placed(info, parts, first, verify),
        info.palette is None,
        info.transparency is None,
        info.metadata.len() == 0,
        first < parts.len(),
        !file::lacks_palette(so_far(info, parts, first, keep).info),
    ensures
        file::header_from(png, p, verify, keep, info) == Ok::<InfoView, Error>(
            so_far(info, parts, first, keep).info,
        ),
{
    lemma_front_read(png, p, info, parts, first, verify, first, keep);
    lemma_parts_split(parts, first);
    let a = parts_bytes(parts.take(first));
    let b = part_bytes(parts[first]);
    let c = parts_bytes(parts.skip(first + 1));
    laws::lemma_stands_split(png, p, a, b + c);
    laws::lemma_stands_split(png, p + a.len(), b, c);
    assert(plain(parts[first], verify));
    lemma_part_found(png, p + a.len(), parts[first], verify);
    lemma_named(parts[first].chunk.kind);
    laws::lemma_kinds();
}

/// What a file says ahead of its image data, whatever stands behind the first chunk of that:
/// the last palette and the last transparency, the metadata asked for, and what is in the
/// header.
pub proof fn law_header_says(
    header: Part,
    info: InfoView,
    parts: Seq<Part>,
    first: int,
    rest: Seq<u8>,
    checks: Checks,
    keep: Keep,
)
    requires
        heads(header, info, checks !is Nothing),
        well_placed(info, parts, first, checks !is Nothing),
        first < parts.len(),
        info.color_type is Indexed ==> exists|k: int|
            0 <= k < first && is_plte((#[trigger] parts[k]).chunk.kind),
    ensures
        file::described(
            signature() + part_bytes(header) + parts_bytes(parts) + rest,
            checks,
            keep,
        ) matches Ok(view) && {
            &&& latest(parts, first, true, view.palette)
            &&& latest(parts, first, false, view.transparency)
            &&& view.metadata == metadata_of(parts, first, keep)
            &&& view == InfoView {
                palette: view.palette,
                transparency: view.transparency,
                metadata: view.metadata,
                ..info
            }
        },
{
    let png = signature() + part_bytes(header) + parts_bytes(parts) + rest;
    let verify = checks !is Nothing;
    let p = 8 + part_bytes(header).len() as int;
    lemma_front_stands(header, parts, rest);
    lemma_named(header.chunk.kind);
    lemma_part_found(png, 8, header, verify);
    assert(file::opened(png, verify) == Ok::<(InfoView, int), Error>((info, p)));
    lemma_so_far(info, parts, first, verify, first, keep);
    let read = so_far(info, parts, first, keep);
    if info.color_type is Indexed {
        let k = choose|k: int| 0 <= k < first && is_plte((#[trigger] parts[k]).chunk.kind);
        assert(sought(parts[k], true));
        assert(read.info.palette is Some);
    }
    lemma_data_reached(png, p, info, parts, first, verify, keep);
}

/// The colour type of a number in the header.
pub open spec fn color_named(byte: u8, color_type: ColorType) -> bool {
    match color_type {
        ColorType::Grayscale => byte == 0,
        ColorType::Rgb => byte == 2,
        ColorType::Indexed => byte == 3,
        ColorType::GrayscaleAlpha => byte == 4,
        ColorType::Rgba => byte == 6,
    }
}

/// The bit depth of a number in the header.
pub open spec fn depth_named(byte: u8, depth: BitDepth) -> bool {
    match depth {
        BitDepth::One => byte == 1,
        BitDepth::Two => byte == 2,
        BitDepth::Four => byte == 4,
        BitDepth::Eight => byte == 8,
        BitDepth::Sixteen => byte == 16,
    }
}

/// The bits of a pixel, for the layouts that the format has: by colour type and bit depth.
pub open spec fn pixel_size(color: u8, depth: u8) -> Option<int> {
    if color == 0 && (depth == 1 || depth == 2 || depth == 4 || depth == 8 || depth == 16) {
        Some(depth as int)
    } else if color == 2 && (depth == 8 || depth == 16) {
        Some(3 * depth)
    } else if color == 3 && (depth == 1 || depth == 2 || depth == 4 || depth == 8) {
        Some(depth as int)
    } else if color == 4 && (depth == 8 || depth == 16) {
        Some(2 * depth)
    } else if color == 6 && (depth == 8 || depth == 16) {
        Some(4 * depth)
    } else {
        None
    }
}

/// A header is accepted exactly if it has thirteen bytes, a layout that the format has, zero
/// for the two methods, zero or one for the interlacing, pixels, and a size that the machine
/// can address. What it says is width, height, bit depth, colour type and interlacing, in this
/// order, and nothing else.
pub proof fn law_header_fields(data: Seq<u8>)
    ensures
        ({
            let width = data[0] * 0x100_0000 + data[1] * 0x1_0000 + data[2] * 0x100 + data[3];
            let height = data[4] * 0x100_0000 + data[5] * 0x1_0000 + data[6] * 0x100 + data[7];
            let size = pixel_size(data[9], data[8]);
            &&& file::header(data) is Ok <==> data.len() == 13 && size is Some && data[10] == 0
                && data[11] == 0 && data[12] <= 1 && width > 0 && height > 0 && width * height * size->0
                / 8 + height <= usize::MAX / 2
            &&& file::header(data) matches Ok(info) ==> {
                &&& info.width == width
                &&& info.height == height
                &&& depth_named(data[8], info.bit_depth)
                &&& color_named(data[9], info.color_type)
                &&& info.interlacing == (if data[12] == 0 {
                    Interlacing::Sequential
                } else {
                    Interlacing::Adam7
                })
                &&& info.bits() == size->0
                &&& info.palette is None
                &&& info.transparency is None
                &&& info.metadata.len() == 0
            }
        }),
{
    if data.len() == 13 {
        let width = data[0] * 0x100_0000 + data[1] * 0x1_0000 + data[2] * 0x100 + data[3];
        let height = data[4] * 0x100_0000 + data[5] * 0x1_0000 + data[6] * 0x100 + data[7];
        assert(stream::be32(data, 0) == width);
        assert(stream::be32(data, 4) == height);
        assert(width <= 0xffff_ffff && height <= 0xffff_ffff);
        if let Some(bit_depth) = common::depth_of(data[8]) {
            if let Some(color_type) = common::color_of(data[9]) {
                let info = common::plain_info(width as u32, height as u32, color_type, bit_depth);
                assert(common::depth_allowed(color_type, bit_depth) == (pixel_size(
                    data[9],
                    data[8],
                ) is Some));
                assert(common::depth_allowed(color_type, bit_depth) ==> info.bits() == pixel_size(
                    data[9],
                    data[8],
                )->0);
            }
        }
    }
}

/// Why a header is refused: the first reason of this list. A length other than thirteen; a
/// bit depth that the format does not have; a colour type that it does not have; a compression
/// method, then a filter method, other than zero; an interlacing above one; a bit depth that
/// does not go with the colour type; no pixels; too many.
pub proof fn law_header_is_refused(data: Seq<u8>)
    requires
        data.len() < usize::MAX,
    ensures
        ({
            let width = data[0] * 0x100_0000 + data[1] * 0x1_0000 + data[2] * 0x100 + data[3];
            let height = data[4] * 0x100_0000 + data[5] * 0x1_0000 + data[6] * 0x100 + data[7];
            let (depth, color) = (data[8], data[9]);
            file::header(data) matches Err(error) ==> if data.len() != 13 {
                error matches Error::InvalidChunkLength { chunk, length } && is_ihdr(chunk) && length
                    == data.len()
            } else if depth != 1 && depth != 2 && depth != 4 && depth != 8 && depth != 16 {
                error == Error::InvalidBitDepth { color_type: color, bit_depth: depth }
            } else if color != 0 && color != 2 && color != 3 && color != 4 && color != 6 {
                error == Error::InvalidColorType(color)
            } else if data[10] != 0 {
                error == Error::UnsupportedMethod { field: "compression method", value: data[10] }
            } else if data[11] != 0 {
                error == Error::UnsupportedMethod { field: "filter method", value: data[11] }
            } else if data[12] > 1 {
                error == Error::InvalidInterlaceMethod(data[12])
            } else if pixel_size(color, depth) is None {
                error == Error::InvalidBitDepth { color_type: color, bit_depth: depth }
            } else if width == 0 || height == 0 {
                error == Error::EmptyImage
            } else {
                error == Error::ImageTooLarge
            }
        }),
{
    lemma_named(common::IHDR);
    if data.len() == 13 {
        let width = data[0] * 0x100_0000 + data[1] * 0x1_0000 + data[2] * 0x100 + data[3];
        let height = data[4] * 0x100_0000 + data[5] * 0x1_0000 + data[6] * 0x100 + data[7];
        assert(stream::be32(data, 0) == width);
        assert(stream::be32(data, 4) == height);
        assert(width <= 0xffff_ffff && height <= 0xffff_ffff);
        if let Some(bit_depth) = common::depth_of(data[8]) {
            if let Some(color_type) = common::color_of(data[9]) {
                assert(common::depth_allowed(color_type, bit_depth) == (pixel_size(
                    data[9],
                    data[8],
                ) is Some));
            }
        }
    }
}

// ---------------------------------------------------------------------------------------
// What is refused
// ---------------------------------------------------------------------------------------

/// Why a part is refused behind a header of this colour type, if it is: a palette that is not
/// made of up to 256 triples, a transparency in front of the image data that does not suit the
/// colour type, and any other chunk that a decoder has to know and does not.
pub open spec fn fault(color_type: ColorType, chunk: ChunkView, early: bool) -> Option<Error> {
    if is_plte(chunk.kind) {
        if chunk.data.len() > 768 || chunk.data.len() % 3 != 0 {
            Some(Error::InvalidChunkLength { chunk: chunk.kind, length: chunk.data.len() as usize })
        } else {
            None
        }
    } else if is_trns(chunk.kind) {
        if early && !fitting(color_type, chunk) {
            Some(Error::InvalidChunkLength { chunk: chunk.kind, length: chunk.data.len() as usize })
        } else {
            None
        }
    } else if 0x41 <= chunk.kind[0] <= 0x5a && !is_idat(chunk.kind) && !is_iend(chunk.kind) {
        Some(Error::UnknownCriticalChunk { chunk: chunk.kind })
    } else {
        None
    }
}

/// A file with a part that cannot stand where it does is refused, and the part is named. What
/// stands behind it plays no part.
pub proof fn law_bad_part_is_refused(
    header: Part,
    info: InfoView,
    parts: Seq<Part>,
    first: int,
    bad: Part,
    rest: Seq<u8>,
    settings: Settings,
)
    requires
        heads(header, info, settings.checks !is Nothing),
        well_placed(info, parts, first, settings.checks !is Nothing),
        bad.chunk.data.len() <= 0x7fff_ffff,
        bad.sum.len() == 4,
        settings.checks !is Nothing ==> summed(bad),
        fault(info.color_type, bad.chunk, first == parts.len()) is Some,
        info.decompressed_size() <= usize::MAX,
        settings.limit matches Some(most) ==> info.decompressed_size() <= most,
    ensures
        file::decoded(
            signature() + part_bytes(header) + parts_bytes(parts) + (part_bytes(bad) + rest),
            settings,
        ) == Err::<file::ImageView, Error>(
            fault(info.color_type, bad.chunk, first == parts.len())->0,
        ),
{
    let verify = settings.checks !is Nothing;
    let keep = settings.keep;
    let tail = part_bytes(bad) + rest;
    let png = signature() + part_bytes(header) + parts_bytes(parts) + tail;
    let p = 8 + part_bytes(header).len() as int;
    let q = p + parts_bytes(parts).len();
    let n = parts.len() as int;
    lemma_front_stands(header, parts, tail);
    lemma_named(header.chunk.kind);
    lemma_part_found(png, 8, header, verify);
    assert(file::opened(png, verify) == Ok::<(InfoView, int), Error>((info, p)));
    lemma_parts_read(png, p, info, parts, first, verify, n, keep);
    lemma_so_far(info, parts, first, verify, n, keep);
    assert(parts.take(n) =~= parts);
    assert(laws::stands(png, q, part_bytes(bad))) by {
        assert(png.subrange(q, q + part_bytes(bad).len()) =~= part_bytes(bad));
    }
    lemma_part_found(png, q, bad, verify);
    lemma_named(bad.chunk.kind);
    laws::lemma_kinds();
}

/// A file that comes to its end without image data is refused, and so is an indexed one
/// without a palette in front of the image data. Of both faults the palette is named.
#[verifier::rlimit(30)]
pub proof fn law_missing_part_is_refused(
    header: Part,
    info: InfoView,
    parts: Seq<Part>,
    first: int,
    end: Part,
    rest: Seq<u8>,
    settings: Settings,
)
    requires
        well_made(header, info, parts, first, end, settings.checks !is Nothing),
        info.decompressed_size() <= usize::MAX,
        settings.limit matches Some(most) ==> info.decompressed_size() <= most,
    ensures
        info.color_type is Indexed && (forall|k: int|
            0 <= k < first ==> !is_plte((#[trigger] parts[k]).chunk.kind)) ==> file::decoded(
            file_of(header, parts, end, rest),
            settings,
        ) == Err::<file::ImageView, Error>(Error::MissingPalette),
        first == parts.len() && !(info.color_type is Indexed && forall|k: int|
            0 <= k < first ==> !is_plte((#[trigger] parts[k]).chunk.kind)) ==> file::decoded(
            file_of(header, parts, end, rest),
            settings,
        ) == Err::<file::ImageView, Error>(Error::MissingImageData),
{
    let png = file_of(header, parts, end, rest);
    let verify = settings.checks !is Nothing;
    let keep = settings.keep;
    let n = parts.len() as int;
    lemma_file_stands(header, parts, end, rest);
    let p = 8 + part_bytes(header).len() as int;
    let q = p + parts_bytes(parts).len();
    lemma_named(header.chunk.kind);
    lemma_named(end.chunk.kind);
    lemma_part_found(png, 8, header, verify);
    assert(file::opened(png, verify) == Ok::<(InfoView, int), Error>((info, p)));
    lemma_parts_read(png, p, info, parts, first, verify, n, keep);
    assert(parts.take(n) =~= parts);
    lemma_so_far(info, parts, first, verify, n, keep);
    lemma_part_found(png, q, end, verify);
    let read = so_far(info, parts, n, keep);
    assert(file::contents_from(png, p, verify, keep, Contents { info, idat: None }) == Ok::<
        Contents,
        Error,
    >(read));
    if forall|k: int| 0 <= k < first ==> !is_plte((#[trigger] parts[k]).chunk.kind) {
        assert(read.info.palette is None) by {
            if read.info.palette is Some {
                let k = choose|k: int|
                    0 <= k < first && #[trigger] sought(parts[k], true) && parts[k].chunk.data
                        == read.info.palette->0 && forall|m: int|
                        k < m < first ==> !(#[trigger] sought(parts[m], true));
                assert(!is_plte(parts[k].chunk.kind));
            }
        }
    } else {
        let k = choose|k: int| 0 <= k < first && is_plte((#[trigger] parts[k]).chunk.kind);
        assert(sought(parts[k], true));
        assert(read.info.palette is Some);
    }
}

// ---------------------------------------------------------------------------------------
// Sizes and settings
// ---------------------------------------------------------------------------------------

/// A row takes the fewest bytes that hold its bits, the image as many as all its rows, and a
/// filter byte more for each where the rows are filtered. To the filters a pixel is as many
/// bytes as it fills, and at least one.
pub proof fn law_image_sizes(info: InfoView)
    requires
        info.checked() is Ok,
    ensures
        8 * (info.row_bytes() - 1) < info.width * info.bits() <= 8 * info.row_bytes(),
        info.output_size() == info.height * info.row_bytes(),
        info.interlacing is Sequential ==> info.decompressed_size() == info.height * (
        info.row_bytes() + 1),
        info.stride() >= 1,
        info.bits() >= 8 ==> 8 * info.stride() == info.bits(),
        info.bits() < 8 ==> info.stride() == 1,
{
    common::lemma_bits(info);
    assert(info.row_bytes() * info.height == info.height * info.row_bytes()) by (nonlinear_arith);
    assert((1 + info.row_bytes()) * info.height == info.height * (info.row_bytes() + 1))
        by (nonlinear_arith);
}

/// A new decoder verifies chunk checksums and not the one inside the image data, keeps no
/// metadata, and refuses more than 512 MiB.
pub proof fn law_default_settings()
    ensures
        decoder::default_settings().checks is Crc,
        decoder::default_settings().keep is Nothing,
        decoder::default_settings().limit == Some((512 * 1024 * 1024) as usize),
{
}

// ---------------------------------------------------------------------------------------
// Image data as it stands in a file
// ---------------------------------------------------------------------------------------

proof fn lemma_part_seen(png: Seq<u8>, p: int, part: Part)
    requires
        laws::stands(png, p, part_bytes(part)),
        part.chunk.data.len() <= 0x7fff_ffff,
        part.sum.len() == 4,
    ensures
        stream::be32(png, p) == part.chunk.data.len(),
        file::kind_at(png, p + 4) == part.chunk.kind,
        png.subrange(p + 8, p + 8 + part.chunk.data.len()) == part.chunk.data,
        part_bytes(part).len() == 12 + part.chunk.data.len(),
{
    let kind = part.chunk.kind;
    let data = part.chunk.data;
    let length = four(data.len() as int);
    assert(part_bytes(part) =~= length + (kind@ + data + part.sum));
    laws::lemma_stands_split(png, p, length, kind@ + data + part.sum);
    laws::lemma_stands_split(png, p + 4, kind@ + data, part.sum);
    laws::lemma_stands_split(png, p + 4, kind@, data);
    lemma_four(data.len() as int, png, p);
    let found = file::kind_at(png, p + 4);
    assert(found =~= kind) by {
        let name = png.subrange(p + 4, p + 8);
        assert(name == kind@);
        assert(name[0] == found[0] && name[1] == found[1] && name[2] == found[2] && name[3]
            == found[3]);
    }
}

/// The image data of parts, counted from the front.
proof fn lemma_image_data_first(parts: Seq<Part>, n: int)
    requires
        0 < n <= parts.len(),
    ensures
        image_data(parts, n) == (if is_idat(parts[0].chunk.kind) {
            parts[0].chunk.data
        } else {
            Seq::empty()
        }) + image_data(parts.skip(1), n - 1),
    decreases n,
{
    let rest = parts.skip(1);
    let head = if is_idat(parts[0].chunk.kind) {
        parts[0].chunk.data
    } else {
        Seq::empty()
    };
    if n == 1 {
        assert(image_data(parts, 0) =~= Seq::empty());
        assert(image_data(parts, 1) =~= head + image_data(rest, 0));
    } else {
        lemma_image_data_first(parts, n - 1);
        assert(rest[n - 2] == parts[n - 1]);
        if is_idat(parts[n - 1].chunk.kind) {
            let mid = image_data(rest, n - 2);
            let last = parts[n - 1].chunk.data;
            assert(head + mid + last =~= head + (mid + last));
        }
    }
}

proof fn lemma_extracted(png: Seq<u8>, p: int, parts: Seq<Part>, end: Part)
    requires
        0 <= p,
        laws::stands(png, p, parts_bytes(parts)),
        laws::stands(png, p + parts_bytes(parts).len(), part_bytes(end)),
        forall|k: int| 0 <= k < parts.len() ==> plain(#[trigger] parts[k], false),
        is_iend(end.chunk.kind),
        end.sum.len() == 4,
        end.chunk.data.len() <= 0x7fff_ffff,
    ensures
        cases::idat_from(png, p) == Some(image_data(parts, parts.len() as int)),
    decreases parts.len(),
{
    if parts.len() == 0 {
        lemma_part_seen(png, p, end);
        lemma_named(end.chunk.kind);
        assert(image_data(parts, 0) =~= Seq::empty());
    } else {
        let part = parts[0];
        let rest = parts.skip(1);
        let here = part_bytes(part);
        laws::lemma_stands_split(png, p, here, parts_bytes(rest));
        assert(plain(part, false));
        lemma_part_seen(png, p, part);
        lemma_named(part.chunk.kind);
        assert forall|k: int| 0 <= k < rest.len() implies plain(#[trigger] rest[k], false) by {
            assert(rest[k] == parts[k + 1]);
        }
        lemma_extracted(png, p + here.len(), rest, end);
        lemma_image_data_first(parts, parts.len() as int);
        let others = image_data(rest, rest.len() as int);
        assert(Seq::<u8>::empty() + others =~= others);
    }
}

/// What is extracted from a file are the payloads of its image data chunks, joined, whatever
/// the checksums.
pub proof fn law_image_data_is_extracted(header: Part, parts: Seq<Part>, end: Part, rest: Seq<u8>)
    requires
        is_ihdr(header.chunk.kind),
        header.sum.len() == 4,
        header.chunk.data.len() <= 0x7fff_ffff,
        forall|k: int| 0 <= k < parts.len() ==> plain(#[trigger] parts[k], false),
        is_iend(end.chunk.kind),
        end.sum.len() == 4,
        end.chunk.data.len() <= 0x7fff_ffff,
    ensures
        cases::idat_from(file_of(header, parts, end, rest), 8) == Some(
            image_data(parts, parts.len() as int),
        ),
{
    let png = file_of(header, parts, end, rest);
    lemma_file_stands(header, parts, end, rest);
    lemma_part_seen(png, 8, header);
    lemma_named(header.chunk.kind);
    laws::lemma_kinds();
    let p = 8 + part_bytes(header).len() as int;
    lemma_extracted(png, p, parts, end);
    assert(header.chunk.kind@[1] == 0x48);
    assert(common::IEND@[1] == 0x45 && common::IDAT@[1] == 0x44);
}

} // verus!
