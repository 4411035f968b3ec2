//! Where the chunks of a written file stand.

use vstd::prelude::*;
use crate::common;
use crate::common::{ChunkView, InfoView};
use crate::contents;
use crate::crc32;
use crate::encoder::FilterStrategy;
use crate::encoding;
use crate::error::Error;
use crate::laws;
use crate::metadata;
use crate::roundtrip;
use crate::stream;
use crate::writing;
use crate::writing::IDAT_CHUNK_BYTES;

verus! {

/// The types that the format wants in front of the palette: `cHRM`, `gAMA`, `iCCP`, `sBIT`,
/// `sRGB`, `cICP`, `mDCv` and `cLLi`.
pub open spec fn early(kind: [u8; 4]) -> bool {
    ||| kind@ == seq![0x63u8, 0x48u8, 0x52u8, 0x4du8]
    ||| kind@ == seq![0x67u8, 0x41u8, 0x4du8, 0x41u8]
    ||| kind@ == seq![0x69u8, 0x43u8, 0x43u8, 0x50u8]
    ||| kind@ == seq![0x73u8, 0x42u8, 0x49u8, 0x54u8]
    ||| kind@ == seq![0x73u8, 0x52u8, 0x47u8, 0x42u8]
    ||| kind@ == seq![0x63u8, 0x49u8, 0x43u8, 0x50u8]
    ||| kind@ == seq![0x6du8, 0x44u8, 0x43u8, 0x76u8]
    ||| kind@ == seq![0x63u8, 0x4cu8, 0x4cu8, 0x69u8]
}

/// The turn of a chunk in a file: `IHDR`, what goes in front of the palette, `PLTE`, `tRNS`,
/// all other metadata, `IDAT`, `IEND`.
pub open spec fn turn(kind: [u8; 4]) -> int {
    if kind@ == seq![0x49u8, 0x48u8, 0x44u8, 0x52u8] {
        0
    } else if early(kind) {
        1
    } else if kind@ == seq![0x50u8, 0x4cu8, 0x54u8, 0x45u8] {
        2
    } else if kind@ == seq![0x74u8, 0x52u8, 0x4eu8, 0x53u8] {
        3
    } else if kind@ == seq![0x49u8, 0x44u8, 0x41u8, 0x54u8] {
        5
    } else if kind@ == seq![0x49u8, 0x45u8, 0x4eu8, 0x44u8] {
        6
    } else {
        4
    }
}

/// Whether the walk over the chunks of a file from its first one comes to an intact chunk at
/// `at`.
pub open spec fn comes_to(png: Seq<u8>, at: int) -> bool {
    laws::leads_to(png, 8, at) && metadata::intact(png, at)
}

/// Whether a chunk stands at `at`.
pub open spec fn found_at(png: Seq<u8>, at: int, chunk: ChunkView) -> bool {
    comes_to(png, at) && metadata::chunk_at(png, at) == chunk
}

// ---------------------------------------------------------------------------------------
// A file as a list of chunks
// ---------------------------------------------------------------------------------------

/// The compressed data in pieces of one `IDAT` chunk each.
spec fn data_chunks(packed: Seq<u8>, n: nat) -> Seq<ChunkView> {
    Seq::new(
        n,
        |k: int|
            ChunkView {
                kind: common::IDAT,
                data: packed.subrange(k * IDAT_CHUNK_BYTES, (k + 1) * IDAT_CHUNK_BYTES),
            },
    )
}

spec fn idat_chunks(packed: Seq<u8>) -> Seq<ChunkView> {
    let n = (packed.len() as int / IDAT_CHUNK_BYTES as int) as nat;
    let rest = packed.skip(n * IDAT_CHUNK_BYTES);
    if rest.len() == 0 {
        data_chunks(packed, n)
    } else {
        data_chunks(packed, n).push(ChunkView { kind: common::IDAT, data: rest })
    }
}

spec fn one_or_none(kind: [u8; 4], data: Option<Seq<u8>>) -> Seq<ChunkView> {
    match data {
        Some(bytes) => seq![ChunkView { kind, data: bytes }],
        None => Seq::empty(),
    }
}

/// All chunks of a written file.
#[verifier::opaque]
spec fn all_chunks(info: InfoView, data: Seq<u8>, strategy: FilterStrategy) -> Seq<ChunkView> {
    let packed = encoding::zlib_of_pieces(writing::bands(info, data, strategy));
    seq![ChunkView { kind: common::IHDR, data: writing::ihdr_payload(info) }] + writing::side(
        info.metadata,
        true,
    ) + one_or_none(common::PLTE, info.palette) + one_or_none(common::TRNS, info.transparency)
        + writing::side(info.metadata, false) + idat_chunks(packed) + seq![
        ChunkView { kind: common::IEND, data: Seq::empty() },
    ]
}

proof fn lemma_chunks_concat(a: Seq<ChunkView>, b: Seq<ChunkView>)
    ensures
        writing::chunks_bytes(a + b) == writing::chunks_bytes(a) + writing::chunks_bytes(b),
    decreases b.len(),
{
    let front = writing::chunks_bytes(a);
    if b.len() == 0 {
        assert(a + b =~= a);
        assert(front + writing::chunks_bytes(b) =~= front);
    } else {
        lemma_chunks_concat(a, b.drop_last());
        assert((a + b).drop_last() =~= a + b.drop_last());
        let mid = writing::chunks_bytes(b.drop_last());
        let last = writing::chunk_bytes(b.last().kind, b.last().data);
        assert(front + mid + last =~= front + (mid + last));
    }
}

proof fn lemma_one_chunk(chunk: ChunkView)
    ensures
        writing::chunks_bytes(seq![chunk]) == writing::chunk_bytes(chunk.kind, chunk.data),
{
    let one = seq![chunk];
    assert(one.drop_last() =~= Seq::empty());
    assert(writing::chunks_bytes(one.drop_last()) =~= Seq::empty());
    assert(writing::chunks_bytes(one) =~= writing::chunk_bytes(chunk.kind, chunk.data));
}

proof fn lemma_data_chunks(packed: Seq<u8>, n: nat)
    ensures
        writing::chunks_bytes(data_chunks(packed, n)) == writing::full_chunks(packed, n as int),
    decreases n,
{
    if n > 0 {
        let m = (n - 1) as nat;
        lemma_data_chunks(packed, m);
        assert(data_chunks(packed, n).drop_last() =~= data_chunks(packed, m));
    }
}

proof fn lemma_idat_chunks(packed: Seq<u8>)
    ensures
        writing::chunks_bytes(idat_chunks(packed)) == writing::idat_bytes(packed),
{
    let n = (packed.len() as int / IDAT_CHUNK_BYTES as int) as nat;
    let rest = packed.skip(n * IDAT_CHUNK_BYTES);
    lemma_data_chunks(packed, n);
    if rest.len() > 0 {
        let all = idat_chunks(packed);
        assert(all.drop_last() =~= data_chunks(packed, n));
    }
}

proof fn lemma_optional(kind: [u8; 4], data: Option<Seq<u8>>)
    ensures
        writing::chunks_bytes(one_or_none(kind, data)) == writing::optional_chunk(kind, data),
{
    if let Some(bytes) = data {
        lemma_one_chunk(ChunkView { kind, data: bytes });
    }
}

proof fn lemma_seven_lists(
    a: Seq<ChunkView>,
    b: Seq<ChunkView>,
    c: Seq<ChunkView>,
    d: Seq<ChunkView>,
    e: Seq<ChunkView>,
    f: Seq<ChunkView>,
    g: Seq<ChunkView>,
)
    ensures
        writing::chunks_bytes(a + b + c + d + e + f + g) == writing::chunks_bytes(a)
            + writing::chunks_bytes(b) + writing::chunks_bytes(c) + writing::chunks_bytes(d)
            + writing::chunks_bytes(e) + writing::chunks_bytes(f) + writing::chunks_bytes(g),
{
    lemma_chunks_concat(a, b);
    lemma_chunks_concat(a + b, c);
    lemma_chunks_concat(a + b + c, d);
    lemma_chunks_concat(a + b + c + d, e);
    lemma_chunks_concat(a + b + c + d + e, f);
    lemma_chunks_concat(a + b + c + d + e + f, g);
}

proof fn lemma_grouped(
    s: Seq<u8>,
    a: Seq<u8>,
    b: Seq<u8>,
    c: Seq<u8>,
    d: Seq<u8>,
    e: Seq<u8>,
    f: Seq<u8>,
    g: Seq<u8>,
)
    ensures
        s + a + b + c + d + e + f + g == s + (a + b + c + d + e + f + g),
{
    assert(s + a + b + c + d + e + f + g =~= s + (a + b + c + d + e + f + g));
}

/// A written file is the signature and its chunks.
proof fn lemma_file_of_chunks(info: InfoView, data: Seq<u8>, strategy: FilterStrategy)
    ensures
        writing::file_bytes(info, data, strategy) == common::SIGNATURE@ + writing::chunks_bytes(
            all_chunks(info, data, strategy),
        ),
{
    let packed = encoding::zlib_of_pieces(writing::bands(info, data, strategy));
    let header = ChunkView { kind: common::IHDR, data: writing::ihdr_payload(info) };
    let end = ChunkView { kind: common::IEND, data: Seq::empty() };
    let a = seq![header];
    let b = writing::side(info.metadata, true);
    let c = one_or_none(common::PLTE, info.palette);
    let d = one_or_none(common::TRNS, info.transparency);
    let e = writing::side(info.metadata, false);
    let f = idat_chunks(packed);
    let g = seq![end];
    lemma_one_chunk(header);
    lemma_one_chunk(end);
    lemma_optional(common::PLTE, info.palette);
    lemma_optional(common::TRNS, info.transparency);
    lemma_idat_chunks(packed);
    reveal(all_chunks);
    lemma_seven_lists(a, b, c, d, e, f, g);
    lemma_grouped(
        common::SIGNATURE@,
        writing::chunks_bytes(a),
        writing::chunks_bytes(b),
        writing::chunks_bytes(c),
        writing::chunks_bytes(d),
        writing::chunks_bytes(e),
        writing::chunks_bytes(f),
        writing::chunks_bytes(g),
    );
}

// ---------------------------------------------------------------------------------------
// The walk over the chunks
// ---------------------------------------------------------------------------------------

/// Where chunk `k` of a list begins behind the signature.
spec fn start(list: Seq<ChunkView>, k: int) -> int {
    8 + writing::chunks_bytes(list.take(k)).len() as int
}

/// Whether a file is a signature and a list of chunks of which only the last ends a file.
spec fn made_of(png: Seq<u8>, list: Seq<ChunkView>) -> bool {
    &&& png == common::SIGNATURE@ + writing::chunks_bytes(list)
    &&& forall|k: int| 0 <= k < list.len() ==> (#[trigger] list[k]).data.len() <= 0x7fff_ffff
    &&& forall|k: int| 0 <= k < list.len() - 1 ==> (#[trigger] list[k]).kind != common::IEND
}

/// The parts of a chunk that stands in a file.
proof fn lemma_chunk_stands(png: Seq<u8>, at: int, chunk: ChunkView)
    requires
        laws::stands(png, at, writing::chunk_bytes(chunk.kind, chunk.data)),
        chunk.data.len() <= 0x7fff_ffff,
    ensures
        metadata::intact(png, at),
        metadata::chunk_at(png, at) == chunk,
        stream::be32(png, at) == chunk.data.len(),
        writing::chunk_bytes(chunk.kind, chunk.data).len() == 12 + chunk.data.len(),
{
    let kind = chunk.kind;
    let data = chunk.data;
    let length = encoding::be_bytes(data.len());
    let sum = encoding::be_bytes(crc32::checksum(kind@ + data) as nat);
    let here = writing::chunk_bytes(kind, data);
    let end = at + 12 + data.len();
    assert(here =~= length + (kind@ + data + sum));
    laws::lemma_stands_split(png, at, length, kind@ + data + sum);
    laws::lemma_stands_split(png, at + 4, kind@ + data, sum);
    laws::lemma_stands_split(png, at + 4, kind@, data);
    roundtrip::lemma_be_bytes(data.len(), png, at);
    roundtrip::lemma_be_bytes(crc32::checksum(kind@ + data) as nat, png, end - 4);
    assert(png.subrange(at + 4, end - 4) == kind@ + data);
    let seen = metadata::chunk_at(png, at);
    assert(seen.kind =~= kind) by {
        let four = png.subrange(at + 4, at + 8);
        assert(four == kind@);
        assert(four[0] == png[at + 4] && four[1] == png[at + 5] && four[2] == png[at + 6] && four[3]
            == png[at + 7]);
    }
    assert(seen.data == data);
}

/// A chunk of the list stands where it should.
proof fn lemma_standing(png: Seq<u8>, list: Seq<ChunkView>, k: int)
    requires
        made_of(png, list),
        0 <= k < list.len(),
    ensures
        8 <= start(list, k),
        metadata::intact(png, start(list, k)),
        metadata::chunk_at(png, start(list, k)) == list[k],
        start(list, k) + 12 + stream::be32(png, start(list, k)) == start(list, k + 1),
        start(list, k + 1) == start(list, k) + 12 + list[k].data.len(),
        start(list, k + 1) <= png.len(),
{
    let front = list.take(k);
    let chunk = list[k];
    let back = list.skip(k + 1);
    let here = writing::chunk_bytes(chunk.kind, chunk.data);
    assert(list =~= front + seq![chunk] + back);
    lemma_chunks_concat(front + seq![chunk], back);
    lemma_chunks_concat(front, seq![chunk]);
    lemma_one_chunk(chunk);
    assert(list.take(k + 1) =~= front + seq![chunk]);
    let at = start(list, k);
    assert(laws::stands(png, at, here)) by {
        assert(png.subrange(at, at + here.len()) =~= here);
    }
    assert(chunk.data.len() <= 0x7fff_ffff);
    lemma_chunk_stands(png, at, chunk);
}

/// The walk comes to chunk after chunk.
proof fn lemma_walked(png: Seq<u8>, list: Seq<ChunkView>, k: int, m: int)
    requires
        made_of(png, list),
        0 <= k <= m < list.len(),
    ensures
        laws::leads_to(png, start(list, k), start(list, m)),
        start(list, k) <= start(list, m),
        k < m ==> start(list, k) < start(list, m),
    decreases m - k,
{
    if k < m {
        lemma_standing(png, list, k);
        lemma_standing(png, list, m);
        lemma_walked(png, list, k + 1, m);
        let at = start(list, k);
        assert(list[k].kind != common::IEND);
        assert([png[at + 4], png[at + 5], png[at + 6], png[at + 7]] == list[k].kind);
    }
}

/// The walk comes to nothing but the chunks.
proof fn lemma_walk_ends(png: Seq<u8>, list: Seq<ChunkView>, k: int, at: int) -> (m: int)
    requires
        made_of(png, list),
        0 <= k < list.len(),
        laws::leads_to(png, start(list, k), at),
        at < png.len(),
    ensures
        k <= m < list.len(),
        at == start(list, m),
    decreases at - start(list, k),
{
    lemma_standing(png, list, k);
    if at == start(list, k) {
        k
    } else {
        if k + 1 == list.len() {
            assert(list.take(k + 1) =~= list);
        }
        lemma_walk_ends(png, list, k + 1, at)
    }
}

// ---------------------------------------------------------------------------------------
// Turns
// ---------------------------------------------------------------------------------------

/// Whether all chunks of a list have their turn at `low` to `high`, one after the other.
spec fn sorted(list: Seq<ChunkView>, low: int, high: int) -> bool {
    &&& forall|k: int| 0 <= k < list.len() ==> low <= turn((#[trigger] list[k]).kind) <= high
    &&& forall|j: int, k: int|
        0 <= j < k < list.len() ==> turn((#[trigger] list[j]).kind) <= turn((#[trigger] list[k]).kind)
}

proof fn lemma_sorted_concat(a: Seq<ChunkView>, b: Seq<ChunkView>, low: int, mid: int, high: int)
    requires
        sorted(a, low, mid),
        sorted(b, mid, high),
        low <= mid <= high,
    ensures
        sorted(a + b, low, high),
{
    let all = a + b;
    assert forall|k: int| 0 <= k < all.len() implies low <= turn((#[trigger] all[k]).kind) <= high by {
        if k < a.len() {
            assert(all[k] == a[k]);
        } else {
            assert(all[k] == b[k - a.len()]);
        }
    }
    assert forall|j: int, k: int| 0 <= j < k < all.len() implies turn((#[trigger] all[j]).kind)
        <= turn((#[trigger] all[k]).kind) by {
        if k < a.len() {
            assert(all[j] == a[j] && all[k] == a[k]);
        } else if j >= a.len() {
            assert(all[j] == b[j - a.len()] && all[k] == b[k - a.len()]);
        } else {
            assert(all[j] == a[j] && all[k] == b[k - a.len()]);
        }
    }
}

/// The types that are written out in two ways.
proof fn lemma_turns(kind: [u8; 4])
    ensures
        writing::before_palette(kind) == early(kind),
        turn(common::IHDR) == 0,
        turn(common::PLTE) == 2,
        turn(common::TRNS) == 3,
        turn(common::IDAT) == 5,
        turn(common::IEND) == 6,
        common::writable(kind) ==> turn(kind) == (if early(kind) {
            1int
        } else {
            4
        }),
{
    lemma_bytes(kind, 0x63, 0x48, 0x52, 0x4d);
    lemma_bytes(kind, 0x67, 0x41, 0x4d, 0x41);
    lemma_bytes(kind, 0x69, 0x43, 0x43, 0x50);
    lemma_bytes(kind, 0x73, 0x42, 0x49, 0x54);
    lemma_bytes(kind, 0x73, 0x52, 0x47, 0x42);
    lemma_bytes(kind, 0x63, 0x49, 0x43, 0x50);
    lemma_bytes(kind, 0x6d, 0x44, 0x43, 0x76);
    lemma_bytes(kind, 0x63, 0x4c, 0x4c, 0x69);
    lemma_bytes(kind, 0x74, 0x52, 0x4e, 0x53);
    assert(common::IHDR@ =~= seq![0x49u8, 0x48u8, 0x44u8, 0x52u8]);
    assert(common::PLTE@ =~= seq![0x50u8, 0x4cu8, 0x54u8, 0x45u8]);
    assert(common::TRNS@ =~= seq![0x74u8, 0x52u8, 0x4eu8, 0x53u8]);
    assert(common::IDAT@ =~= seq![0x49u8, 0x44u8, 0x41u8, 0x54u8]);
    assert(common::IEND@ =~= seq![0x49u8, 0x45u8, 0x4eu8, 0x44u8]);
    assert(common::PLTE@[0] == 0x50 && common::TRNS@[0] == 0x74 && common::TRNS@[1] == 0x52
        && common::IDAT@[1] == 0x44 && common::IEND@[1] == 0x45);
}

proof fn lemma_bytes(kind: [u8; 4], a: u8, b: u8, c: u8, d: u8)
    ensures
        kind == [a, b, c, d] <==> kind@ == seq![a, b, c, d],
        kind@ == seq![a, b, c, d] <==> kind[0] == a && kind[1] == b && kind[2] == c && kind[3] == d,
{
    if kind[0] == a && kind[1] == b && kind[2] == c && kind[3] == d {
        assert(kind =~= [a, b, c, d]);
        assert(kind@ =~= seq![a, b, c, d]);
    }
    if kind@ == seq![a, b, c, d] {
        assert(kind@[0] == a && kind@[1] == b && kind@[2] == c && kind@[3] == d);
    }
}

/// Metadata on one side of the palette has its turn there.
proof fn lemma_side_turn(chunks: Seq<ChunkView>, before: bool)
    requires
        laws::all_writable(chunks),
    ensures
        ({
            let side = writing::side(chunks, before);
            let at = if before {
                1int
            } else {
                4
            };
            sorted(side, at, at) && forall|k: int|
                0 <= k < side.len() ==> common::writable((#[trigger] side[k]).kind)
                    && side[k].data.len() <= 0x7fff_ffff
        }),
    decreases chunks.len(),
{
    if chunks.len() > 0 {
        let rest = chunks.drop_last();
        assert forall|i: int| 0 <= i < rest.len() implies (#[trigger] rest[i]).checked() is Ok by {
            assert(rest[i] == chunks[i]);
        }
        lemma_side_turn(rest, before);
        lemma_turns(chunks.last().kind);
        assert(chunks[chunks.len() - 1].checked() is Ok);
    }
}

/// Every chunk goes to its side.
proof fn lemma_in_side(chunks: Seq<ChunkView>, i: int) -> (k: int)
    requires
        0 <= i < chunks.len(),
    ensures
        ({
            let side = writing::side(chunks, writing::before_palette(chunks[i].kind));
            0 <= k < side.len() && side[k] == chunks[i]
        }),
        k == writing::side(
            chunks.take(i),
            writing::before_palette(chunks[i].kind),
        ).len(),
    decreases chunks.len(),
{
    let rest = chunks.drop_last();
    let before = writing::before_palette(chunks[i].kind);
    if i == chunks.len() - 1 {
        assert(chunks.take(i) =~= rest);
        writing::side(rest, before).len() as int
    } else {
        assert(rest[i] == chunks[i]);
        assert(rest.take(i) =~= chunks.take(i));
        lemma_in_side(rest, i)
    }
}

/// More chunks have no fewer on either side, and one of a side one more.
proof fn lemma_side_grows(chunks: Seq<ChunkView>, i: int, j: int, before: bool)
    requires
        0 <= i < j <= chunks.len(),
        writing::before_palette(chunks[i].kind) == before,
    ensures
        writing::side(chunks.take(i), before).len() < writing::side(chunks.take(j), before).len(),
    decreases j - i,
{
    assert(chunks.take(j).drop_last() =~= chunks.take(j - 1));
    if i < j - 1 {
        lemma_side_grows(chunks, i, j - 1, before);
    }
}

/// The pieces of the image data.
proof fn lemma_idat_list(packed: Seq<u8>)
    ensures
        ({
            let list = idat_chunks(packed);
            &&& forall|k: int|
                0 <= k < list.len() ==> (#[trigger] list[k]).kind == common::IDAT && 0
                    < list[k].data.len() <= 65536
            &&& forall|k: int| 0 <= k < list.len() - 1 ==> (#[trigger] list[k]).data.len() == 65536
            &&& sorted(list, 5, 5)
        }),
{
    let n = (packed.len() as int / IDAT_CHUNK_BYTES as int) as nat;
    let list = idat_chunks(packed);
    lemma_turns(common::IDAT);
    assert forall|k: int| 0 <= k < n implies (#[trigger] list[k]).kind == common::IDAT
        && list[k].data.len() == 65536 by {
        assert(0 <= k * 65536 && (k + 1) * 65536 <= packed.len());
    }
}

/// The chunks of a written file, and their turns.
proof fn lemma_made(info: InfoView, data: Seq<u8>, strategy: FilterStrategy)
    requires
        writing::writable(info, data) is Ok,
    ensures
        made_of(writing::file_bytes(info, data, strategy), all_chunks(info, data, strategy)),
        sorted(all_chunks(info, data, strategy), 0, 6),
{
    let packed = encoding::zlib_of_pieces(writing::bands(info, data, strategy));
    let list = all_chunks(info, data, strategy);
    let header = ChunkView { kind: common::IHDR, data: writing::ihdr_payload(info) };
    let end = ChunkView { kind: common::IEND, data: Seq::empty() };
    let a = seq![header];
    let b = writing::side(info.metadata, true);
    let c = one_or_none(common::PLTE, info.palette);
    let d = one_or_none(common::TRNS, info.transparency);
    let e = writing::side(info.metadata, false);
    let f = idat_chunks(packed);
    let g = seq![end];
    reveal(all_chunks);
    lemma_file_of_chunks(info, data, strategy);
    laws::lemma_all_writable(info.metadata);
    lemma_side_turn(info.metadata, true);
    lemma_side_turn(info.metadata, false);
    lemma_idat_list(packed);
    lemma_turns(common::IHDR);
    lemma_sorted_concat(a, b, 0, 1, 1);
    lemma_sorted_concat(a + b, c, 0, 1, 2);
    lemma_sorted_concat(a + b + c, d, 0, 2, 3);
    lemma_sorted_concat(a + b + c + d, e, 0, 3, 4);
    lemma_sorted_concat(a + b + c + d + e, f, 0, 4, 5);
    lemma_sorted_concat(a + b + c + d + e + f, g, 0, 5, 6);
    let before = a + b + c + d + e + f;
    assert(sorted(before, 0, 5));
    assert(header.data.len() == 13);
    assert forall|k: int| 0 <= k < list.len() implies (#[trigger] list[k]).data.len()
        <= 0x7fff_ffff by {
        lemma_seven_parts(a, b, c, d, e, f, g, k);
    }
    assert forall|k: int| 0 <= k < list.len() - 1 implies (#[trigger] list[k]).kind
        != common::IEND by {
        assert(list[k] == before[k]);
        assert(turn(before[k].kind) <= 5);
    }
}

/// An element of seven lists in a row is one of them.
proof fn lemma_seven_parts(
    a: Seq<ChunkView>,
    b: Seq<ChunkView>,
    c: Seq<ChunkView>,
    d: Seq<ChunkView>,
    e: Seq<ChunkView>,
    f: Seq<ChunkView>,
    g: Seq<ChunkView>,
    k: int,
)
    requires
        0 <= k < (a + b + c + d + e + f + g).len(),
    ensures
        ({
            let all = a + b + c + d + e + f + g;
            let p1 = a.len() as int;
            let p2 = p1 + b.len();
            let p3 = p2 + c.len();
            let p4 = p3 + d.len();
            let p5 = p4 + e.len();
            let p6 = p5 + f.len();
            &&& k < p1 ==> all[k] == a[k]
            &&& p1 <= k < p2 ==> all[k] == b[k - p1]
            &&& p2 <= k < p3 ==> all[k] == c[k - p2]
            &&& p3 <= k < p4 ==> all[k] == d[k - p3]
            &&& p4 <= k < p5 ==> all[k] == e[k - p4]
            &&& p5 <= k < p6 ==> all[k] == f[k - p5]
            &&& p6 <= k ==> all[k] == g[k - p6]
        }),
{
}

/// Which chunk of a written file comes when.
proof fn lemma_all_parts(info: InfoView, data: Seq<u8>, strategy: FilterStrategy, k: int)
    ensures
        ({
            let packed = encoding::zlib_of_pieces(writing::bands(info, data, strategy));
            let all = all_chunks(info, data, strategy);
            let p2 = 1 + writing::side(info.metadata, true).len() as int;
            let p3 = p2 + one_or_none(common::PLTE, info.palette).len();
            let p4 = p3 + one_or_none(common::TRNS, info.transparency).len();
            let p5 = p4 + writing::side(info.metadata, false).len();
            let p6 = p5 + idat_chunks(packed).len();
            &&& all.len() == p6 + 1
            &&& k == 0 ==> all[k] == (ChunkView {
                kind: common::IHDR,
                data: writing::ihdr_payload(info),
            })
            &&& 1 <= k < p2 ==> all[k] == writing::side(info.metadata, true)[k - 1]
            &&& p2 <= k < p3 ==> all[k] == (ChunkView {
                kind: common::PLTE,
                data: info.palette->0,
            })
            &&& p3 <= k < p4 ==> all[k] == (ChunkView {
                kind: common::TRNS,
                data: info.transparency->0,
            })
            &&& p4 <= k < p5 ==> all[k] == writing::side(info.metadata, false)[k - p4]
            &&& p5 <= k < p6 ==> all[k] == idat_chunks(packed)[k - p5]
            &&& k == p6 ==> all[k] == (ChunkView { kind: common::IEND, data: Seq::empty() })
        }),
{
    reveal(all_chunks);
    let packed = encoding::zlib_of_pieces(writing::bands(info, data, strategy));
    let all = all_chunks(info, data, strategy);
    if 0 <= k < all.len() {
        lemma_seven_parts(
            seq![ChunkView { kind: common::IHDR, data: writing::ihdr_payload(info) }],
            writing::side(info.metadata, true),
            one_or_none(common::PLTE, info.palette),
            one_or_none(common::TRNS, info.transparency),
            writing::side(info.metadata, false),
            idat_chunks(packed),
            seq![ChunkView { kind: common::IEND, data: Seq::empty() }],
            k,
        );
    }
}

// ---------------------------------------------------------------------------------------
// Laws
// ---------------------------------------------------------------------------------------

/// Of any two chunks of a written file, the one that stands in front has its turn no later:
/// `IHDR`, `cHRM`, `gAMA`, `iCCP`, `sBIT`, `sRGB`, `cICP`, `mDCv` and `cLLi`, `PLTE`, `tRNS`,
/// all other metadata, `IDAT`, `IEND`.
pub proof fn law_chunks_have_their_turn(
    info: InfoView,
    data: Seq<u8>,
    strategy: FilterStrategy,
    a: int,
    b: int,
)
    requires
        writing::writable(info, data) is Ok,
        a < b,
        comes_to(writing::file_bytes(info, data, strategy), a),
        comes_to(writing::file_bytes(info, data, strategy), b),
    ensures
        turn(metadata::chunk_at(writing::file_bytes(info, data, strategy), a).kind) <= turn(
            metadata::chunk_at(writing::file_bytes(info, data, strategy), b).kind,
        ),
{
    let png = writing::file_bytes(info, data, strategy);
    let list = all_chunks(info, data, strategy);
    lemma_made(info, data, strategy);
    assert(list.take(0) =~= Seq::empty());
    assert(start(list, 0) == 8);
    let i = lemma_walk_ends(png, list, 0, a);
    let j = lemma_walk_ends(png, list, 0, b);
    lemma_standing(png, list, i);
    lemma_standing(png, list, j);
    if j <= i {
        lemma_walked(png, list, j, i);
    }
}

/// A chunk of the list is found in the file.
proof fn lemma_listed_found(info: InfoView, data: Seq<u8>, strategy: FilterStrategy, k: int)
    requires
        writing::writable(info, data) is Ok,
        0 <= k < all_chunks(info, data, strategy).len(),
    ensures
        found_at(
            writing::file_bytes(info, data, strategy),
            start(all_chunks(info, data, strategy), k),
            all_chunks(info, data, strategy)[k],
        ),
{
    let png = writing::file_bytes(info, data, strategy);
    let list = all_chunks(info, data, strategy);
    lemma_made(info, data, strategy);
    assert(list.take(0) =~= Seq::empty());
    lemma_walked(png, list, 0, k);
    lemma_standing(png, list, k);
}

/// The number of chunks in front of the metadata on one side of the palette.
spec fn base(info: InfoView, before: bool) -> int {
    if before {
        1
    } else {
        1 + writing::side(info.metadata, true).len() as int + one_or_none(
            common::PLTE,
            info.palette,
        ).len() + one_or_none(common::TRNS, info.transparency).len()
    }
}

/// Which chunk of a written file is one that was attached.
proof fn lemma_attached_index(
    info: InfoView,
    data: Seq<u8>,
    strategy: FilterStrategy,
    i: int,
) -> (m: int)
    requires
        0 <= i < info.metadata.len(),
    ensures
        0 < m < all_chunks(info, data, strategy).len(),
        all_chunks(info, data, strategy)[m] == info.metadata[i],
        ({
            let before = writing::before_palette(info.metadata[i].kind);
            m == base(info, before) + writing::side(info.metadata.take(i), before).len()
        }),
{
    let k = lemma_in_side(info.metadata, i);
    let m = base(info, writing::before_palette(info.metadata[i].kind)) + k;
    lemma_all_parts(info, data, strategy, m);
    m
}

/// Every chunk attached to an image is in the file that it is written as, with its type and
/// payload.
pub proof fn law_attached_chunk_is_written(
    info: InfoView,
    data: Seq<u8>,
    strategy: FilterStrategy,
    i: int,
) -> (at: int)
    requires
        writing::writable(info, data) is Ok,
        0 <= i < info.metadata.len(),
    ensures
        8 < at,
        found_at(writing::file_bytes(info, data, strategy), at, info.metadata[i]),
{
    let list = all_chunks(info, data, strategy);
    let m = lemma_attached_index(info, data, strategy, i);
    lemma_listed_found(info, data, strategy, m);
    lemma_made(info, data, strategy);
    lemma_walked(writing::file_bytes(info, data, strategy), list, 0, m);
    assert(list.take(0) =~= Seq::empty());
    start(list, m)
}

/// Chunks attached to an image that go on the same side of the palette keep their order.
pub proof fn law_attached_chunks_keep_their_order(
    info: InfoView,
    data: Seq<u8>,
    strategy: FilterStrategy,
    i: int,
    j: int,
) -> (at: (int, int))
    requires
        writing::writable(info, data) is Ok,
        0 <= i < j < info.metadata.len(),
        early(info.metadata[i].kind) == early(info.metadata[j].kind),
    ensures
        8 < at.0 < at.1,
        found_at(writing::file_bytes(info, data, strategy), at.0, info.metadata[i]),
        found_at(writing::file_bytes(info, data, strategy), at.1, info.metadata[j]),
{
    let list = all_chunks(info, data, strategy);
    let before = writing::before_palette(info.metadata[i].kind);
    lemma_turns(info.metadata[i].kind);
    lemma_turns(info.metadata[j].kind);
    let k = lemma_attached_index(info, data, strategy, i);
    let m = lemma_attached_index(info, data, strategy, j);
    lemma_side_grows(info.metadata, i, j, before);
    lemma_listed_found(info, data, strategy, k);
    lemma_listed_found(info, data, strategy, m);
    lemma_made(info, data, strategy);
    let png = writing::file_bytes(info, data, strategy);
    lemma_walked(png, list, 0, k);
    lemma_walked(png, list, k, m);
    assert(list.take(0) =~= Seq::empty());
    (start(list, k), start(list, m))
}

/// The palette of an image is in the file that it is written as.
pub proof fn law_palette_is_written(info: InfoView, data: Seq<u8>, strategy: FilterStrategy) -> (at:
    int)
    requires
        writing::writable(info, data) is Ok,
        info.palette is Some,
    ensures
        found_at(
            writing::file_bytes(info, data, strategy),
            at,
            ChunkView { kind: [0x50u8, 0x4cu8, 0x54u8, 0x45u8], data: info.palette->0 },
        ),
{
    let list = all_chunks(info, data, strategy);
    let m = 1 + writing::side(info.metadata, true).len() as int;
    lemma_all_parts(info, data, strategy, m);
    lemma_listed_found(info, data, strategy, m);
    start(list, m)
}

/// The transparency of an image is in the file that it is written as.
pub proof fn law_transparency_is_written(
    info: InfoView,
    data: Seq<u8>,
    strategy: FilterStrategy,
) -> (at: int)
    requires
        writing::writable(info, data) is Ok,
        info.transparency is Some,
    ensures
        found_at(
            writing::file_bytes(info, data, strategy),
            at,
            ChunkView { kind: [0x74u8, 0x52u8, 0x4eu8, 0x53u8], data: info.transparency->0 },
        ),
{
    let list = all_chunks(info, data, strategy);
    let m = 1 + writing::side(info.metadata, true).len() as int + one_or_none(
        common::PLTE,
        info.palette,
    ).len();
    lemma_all_parts(info, data, strategy, m);
    lemma_listed_found(info, data, strategy, m);
    start(list, m)
}

/// A written file begins with the signature and a header of thirteen bytes: width and height,
/// the most significant byte first, bit depth and colour type by their numbers, and zeros for
/// the two methods and for the interlacing, since files are written sequentially.
pub proof fn law_header_is_written(info: InfoView, data: Seq<u8>, strategy: FilterStrategy)
    requires
        writing::writable(info, data) is Ok,
    ensures
        ({
            let png = writing::file_bytes(info, data, strategy);
            let header = metadata::chunk_at(png, 8);
            let bytes = header.data;
            &&& png.take(8) == contents::signature()
            &&& comes_to(png, 8)
            &&& contents::is_ihdr(header.kind)
            &&& bytes.len() == 13
            &&& bytes[0] * 0x100_0000 + bytes[1] * 0x1_0000 + bytes[2] * 0x100 + bytes[3]
                == info.width
            &&& bytes[4] * 0x100_0000 + bytes[5] * 0x1_0000 + bytes[6] * 0x100 + bytes[7]
                == info.height
            &&& contents::depth_named(bytes[8], info.bit_depth)
            &&& contents::color_named(bytes[9], info.color_type)
            &&& bytes[10] == 0 && bytes[11] == 0 && bytes[12] == 0
        }),
{
    let png = writing::file_bytes(info, data, strategy);
    let list = all_chunks(info, data, strategy);
    lemma_all_parts(info, data, strategy, 0);
    lemma_listed_found(info, data, strategy, 0);
    assert(list.take(0) =~= Seq::empty());
    assert(start(list, 0) == 8);
    assert(common::IHDR@ =~= seq![0x49u8, 0x48u8, 0x44u8, 0x52u8]);
    assert(png.take(8) == contents::signature()) by {
        lemma_file_of_chunks(info, data, strategy);
        assert(png.take(8) =~= common::SIGNATURE@);
        assert(common::SIGNATURE@ =~= contents::signature());
    }
    lemma_payload(info);
}

/// What the payload of the header holds.
proof fn lemma_payload(info: InfoView)
    ensures
        ({
            let bytes = writing::ihdr_payload(info);
            &&& bytes.len() == 13
            &&& bytes[0] * 0x100_0000 + bytes[1] * 0x1_0000 + bytes[2] * 0x100 + bytes[3]
                == info.width
            &&& bytes[4] * 0x100_0000 + bytes[5] * 0x1_0000 + bytes[6] * 0x100 + bytes[7]
                == info.height
            &&& contents::depth_named(bytes[8], info.bit_depth)
            &&& contents::color_named(bytes[9], info.color_type)
            &&& bytes[10] == 0 && bytes[11] == 0 && bytes[12] == 0
        }),
{
    let payload = writing::ihdr_payload(info);
    assert(payload.subrange(0, 4) =~= encoding::be_bytes(info.width as nat));
    assert(payload.subrange(4, 8) =~= encoding::be_bytes(info.height as nat));
    roundtrip::lemma_be_bytes(info.width as nat, payload, 0);
    roundtrip::lemma_be_bytes(info.height as nat, payload, 4);
}

/// In a file with a palette, a metadata chunk whose type is `cHRM`, `gAMA`, `iCCP`, `sBIT`,
/// `sRGB`, `cICP`, `mDCv` or `cLLi` starts before the palette, and a metadata chunk of any
/// other type starts behind it. This holds of every chunk attached to the image, at every
/// place where it stands.
#[verifier::rlimit(30)]
pub proof fn law_metadata_stands_around_the_palette(
    info: InfoView,
    data: Seq<u8>,
    strategy: FilterStrategy,
    palette_at: int,
    at: int,
)
    requires
        writing::writable(info, data) is Ok,
        comes_to(writing::file_bytes(info, data, strategy), palette_at),
        metadata::chunk_at(writing::file_bytes(info, data, strategy), palette_at).kind@ == seq![
            0x50u8,
            0x4cu8,
            0x54u8,
            0x45u8,
        ],
        comes_to(writing::file_bytes(info, data, strategy), at),
        metadata::carriable(
            metadata::chunk_at(writing::file_bytes(info, data, strategy), at).kind,
        ),
    ensures
        early(metadata::chunk_at(writing::file_bytes(info, data, strategy), at).kind) ==> at
            < palette_at,
        !early(metadata::chunk_at(writing::file_bytes(info, data, strategy), at).kind)
            ==> palette_at < at,
{
    let png = writing::file_bytes(info, data, strategy);
    let kind = metadata::chunk_at(png, at).kind;
    let plte = metadata::chunk_at(png, palette_at).kind;
    metadata::law_metadata_types(kind);
    lemma_turns(kind);
    assert(plte =~= common::PLTE) by {
        assert(plte@[0] == 0x50 && plte@[1] == 0x4c && plte@[2] == 0x54 && plte@[3] == 0x45);
    }
    if at < palette_at {
        law_chunks_have_their_turn(info, data, strategy, at, palette_at);
    } else if palette_at < at {
        law_chunks_have_their_turn(info, data, strategy, palette_at, at);
    }
}

/// The image data is cut into chunks of 65536 bytes, of which only the last may be shorter,
/// and none is empty.
#[verifier::rlimit(30)]
pub proof fn law_image_data_is_cut_evenly(
    info: InfoView,
    data: Seq<u8>,
    strategy: FilterStrategy,
    at: int,
)
    requires
        writing::writable(info, data) is Ok,
        comes_to(writing::file_bytes(info, data, strategy), at),
        metadata::chunk_at(writing::file_bytes(info, data, strategy), at).kind@ == seq![
            0x49u8,
            0x44u8,
            0x41u8,
            0x54u8,
        ],
    ensures
        ({
            let png = writing::file_bytes(info, data, strategy);
            let here = metadata::chunk_at(png, at).data.len();
            let next = at + 12 + here;
            &&& 0 < here <= 65536
            &&& comes_to(png, next)
            &&& metadata::chunk_at(png, next).kind@ == seq![0x49u8, 0x44u8, 0x41u8, 0x54u8] ==> here
                == 65536
        }),
{
    let png = writing::file_bytes(info, data, strategy);
    let list = all_chunks(info, data, strategy);
    let packed = encoding::zlib_of_pieces(writing::bands(info, data, strategy));
    lemma_made(info, data, strategy);
    assert(list.take(0) =~= Seq::empty());
    let k = lemma_walk_ends(png, list, 0, at);
    lemma_standing(png, list, k);
    lemma_all_parts(info, data, strategy, k);
    laws::lemma_all_writable(info.metadata);
    lemma_side_turn(info.metadata, true);
    lemma_side_turn(info.metadata, false);
    lemma_idat_list(packed);
    lemma_turns(common::IDAT);
    let idat = list[k].kind;
    assert(idat =~= common::IDAT) by {
        assert(idat@[0] == 0x49 && idat@[1] == 0x44 && idat@[2] == 0x41 && idat@[3] == 0x54);
    }
    assert(turn(list[k].kind) == 5);
    let p6 = list.len() - 1;
    let p5 = p6 - idat_chunks(packed).len();
    assert(p5 <= k < p6);
    lemma_all_parts(info, data, strategy, k + 1);
    lemma_standing(png, list, k + 1);
    lemma_walked(png, list, 0, k + 1);
    if k + 1 == p6 {
        assert(common::IEND@[1] == 0x45);
        assert(seq![0x49u8, 0x44u8, 0x41u8, 0x54u8][1] == 0x44);
    }
}

/// Why an image is refused: the first reason of this list. A layout that the format does not
/// have; no pixels; too many; data of another size than the description's; an indexed image
/// without a palette; a palette that is not made of up to 256 triples; a transparency that
/// does not suit the colour type; a metadata chunk of a type that may not be carried or with a
/// payload that is too long, the first such chunk. Any other image is written.
pub proof fn law_image_is_refused(info: InfoView, data: Seq<u8>)
    ensures
        ({
            let color = common::color_byte(info.color_type);
            let depth = common::depth_bits(info.bit_depth);
            let size = contents::pixel_size(color, depth);
            let row = (info.width * size->0 + 7) / 8;
            let refused = writing::writable(info, data);
            if size is None {
                refused == Err::<(), Error>(
                    Error::InvalidBitDepth { color_type: color, bit_depth: depth },
                )
            } else if info.width == 0 || info.height == 0 {
                refused == Err::<(), Error>(Error::EmptyImage)
            } else if info.width * info.height * size->0 / 8 + info.height > usize::MAX / 2 {
                refused == Err::<(), Error>(Error::ImageTooLarge)
            } else if data.len() != row * info.height {
                refused == Err::<(), Error>(
                    Error::WrongBufferSize {
                        expected: (row * info.height) as usize,
                        found: data.len() as usize,
                    },
                )
            } else if info.color_type is Indexed && info.palette is None {
                refused == Err::<(), Error>(Error::MissingPalette)
            } else if info.palette is Some && (info.palette->0.len() > 768
                || info.palette->0.len() % 3 != 0) {
                refused == Err::<(), Error>(
                    Error::InvalidChunkLength {
                        chunk: common::PLTE,
                        length: info.palette->0.len() as usize,
                    },
                )
            } else if info.transparency is Some && !contents::fitting(
                info.color_type,
                ChunkView { kind: common::TRNS, data: info.transparency->0 },
            ) {
                refused == Err::<(), Error>(
                    Error::InvalidChunkLength {
                        chunk: common::TRNS,
                        length: info.transparency->0.len() as usize,
                    },
                )
            } else if exists|i: int|
                0 <= i < info.metadata.len() && #[trigger] unwritable(info.metadata[i]) {
                exists|i: int|
                    0 <= i < info.metadata.len() && #[trigger] unwritable(info.metadata[i])
                        && refused == Err::<(), Error>(
                        if metadata::carriable(info.metadata[i].kind) {
                            Error::InvalidChunkLength {
                                chunk: info.metadata[i].kind,
                                length: info.metadata[i].data.len() as usize,
                            }
                        } else {
                            Error::InvalidChunkType { chunk: info.metadata[i].kind }
                        },
                    ) && forall|k: int| 0 <= k < i ==> !(#[trigger] unwritable(info.metadata[k]))
            } else {
                refused == Ok::<(), Error>(())
            }
        }),
{
    common::lemma_bits(info);
    lemma_turns(common::TRNS);
    assert(common::TRNS@ =~= seq![0x74u8, 0x52u8, 0x4eu8, 0x53u8]);
    assert(common::depth_allowed(info.color_type, info.bit_depth) == (contents::pixel_size(
        common::color_byte(info.color_type),
        common::depth_bits(info.bit_depth),
    ) is Some));
    assert(common::depth_allowed(info.color_type, info.bit_depth) ==> info.bits()
        == contents::pixel_size(
        common::color_byte(info.color_type),
        common::depth_bits(info.bit_depth),
    )->0);
    lemma_chunks_refused(info.metadata);
}

/// Whether a chunk may not be attached to an image.
pub open spec fn unwritable(chunk: ChunkView) -> bool {
    !metadata::carriable(chunk.kind) || chunk.data.len() > 0x7fff_ffff
}

proof fn lemma_chunks_refused(chunks: Seq<ChunkView>)
    ensures
        match writing::chunks_checked(chunks) {
            Ok(_) => forall|i: int|
                0 <= i < chunks.len() ==> !(#[trigger] unwritable(chunks[i])),
            Err(error) => exists|i: int|
                0 <= i < chunks.len() && #[trigger] unwritable(chunks[i]) && error == (
                if metadata::carriable(chunks[i].kind) {
                    Error::InvalidChunkLength {
                        chunk: chunks[i].kind,
                        length: chunks[i].data.len() as usize,
                    }
                } else {
                    Error::InvalidChunkType { chunk: chunks[i].kind }
                }) && forall|k: int| 0 <= k < i ==> !(#[trigger] unwritable(chunks[k])),
        },
    decreases chunks.len(),
{
    if chunks.len() > 0 {
        let front = chunks.drop_last();
        let n = chunks.len() - 1;
        lemma_chunks_refused(front);
        metadata::law_metadata_types(chunks[n].kind);
        assert forall|i: int| 0 <= i < n implies front[i] == chunks[i] by {}
        match writing::chunks_checked(front) {
            Ok(_) => {
                assert forall|i: int| 0 <= i < n implies !(#[trigger] unwritable(chunks[i])) by {
                    assert(!unwritable(front[i]));
                }
                if writing::chunks_checked(chunks) is Err {
                    assert(unwritable(chunks[n]));
                }
            },
            Err(error) => {
                let i = choose|i: int|
                    0 <= i < front.len() && #[trigger] unwritable(front[i]) && error == (
                    if metadata::carriable(front[i].kind) {
                        Error::InvalidChunkLength {
                            chunk: front[i].kind,
                            length: front[i].data.len() as usize,
                        }
                    } else {
                        Error::InvalidChunkType { chunk: front[i].kind }
                    }) && forall|k: int| 0 <= k < i ==> !(#[trigger] unwritable(front[k]));
                assert(unwritable(chunks[i]));
                assert forall|k: int| 0 <= k < i implies !(#[trigger] unwritable(chunks[k])) by {
                    assert(!unwritable(front[k]));
                }
            },
        }
    }
}

} // verus!
