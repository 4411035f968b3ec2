//! What becomes of metadata when an image is written and read again.

use vstd::prelude::*;
use vstd::multiset::Multiset;
use vstd::seq_lib::*;
use crate::common;
use crate::common::{ChunkView, InfoView};
use crate::crc32;
use crate::decoder::Keep;
use crate::encoder::FilterStrategy;
use crate::file;
use crate::file::{Contents, Settings};
use crate::laws;
use crate::stream;
use crate::writing;

verus! {

/// A list of chunks is its last one behind the others.
proof fn lemma_last(chunks: Seq<ChunkView>)
    requires
        chunks.len() > 0,
    ensures
        chunks == chunks.drop_last() + seq![chunks.last()],
        chunks == chunks.drop_last().push(chunks.last()),
{
    assert(chunks =~= chunks.drop_last() + seq![chunks.last()]);
    assert(chunks =~= chunks.drop_last().push(chunks.last()));
}

/// The first chunk of a type in two lists is that in the first list, if there is one.
proof fn lemma_first_concat(a: Seq<ChunkView>, b: Seq<ChunkView>, kind: [u8; 4])
    ensures
        common::first_of(a + b, kind) == (match common::first_of(a, kind) {
            Some(data) => Some(data),
            None => common::first_of(b, kind),
        }),
    decreases a.len(),
{
    if a.len() == 0 {
        assert(a + b =~= b);
    } else {
        assert((a + b).skip(1) =~= a.skip(1) + b);
        lemma_first_concat(a.skip(1), b, kind);
    }
}

/// The first chunk of a type, with one more chunk at the end.
proof fn lemma_first_push(chunks: Seq<ChunkView>, next: ChunkView, kind: [u8; 4])
    ensures
        common::first_of(chunks.push(next), kind) == (match common::first_of(chunks, kind) {
            Some(data) => Some(data),
            None => if next.kind == kind {
                Some(next.data)
            } else {
                None
            },
        }),
{
    let one = seq![next];
    assert(chunks.push(next) =~= chunks + one);
    assert(one.skip(1) =~= Seq::empty());
    assert(common::first_of(Seq::<ChunkView>::empty(), kind) is None);
    lemma_first_concat(chunks, one, kind);
}

proof fn lemma_first_side(chunks: Seq<ChunkView>, before: bool, kind: [u8; 4])
    ensures
        common::first_of(writing::side(chunks, before), kind) == (if writing::before_palette(kind)
            == before {
            common::first_of(chunks, kind)
        } else {
            None
        }),
    decreases chunks.len(),
{
    if chunks.len() > 0 {
        let rest = chunks.drop_last();
        lemma_last(chunks);
        lemma_first_side(rest, before, kind);
        lemma_first_push(rest, chunks.last(), kind);
        lemma_first_push(writing::side(rest, before), chunks.last(), kind);
    }
}

proof fn lemma_first_kept(chunks: Seq<ChunkView>, keep: Keep, kind: [u8; 4])
    ensures
        common::first_of(laws::kept(chunks, keep), kind) == (if file::wanted(keep, kind) {
            common::first_of(chunks, kind)
        } else {
            None
        }),
    decreases chunks.len(),
{
    if chunks.len() > 0 {
        let rest = chunks.drop_last();
        lemma_last(chunks);
        lemma_first_kept(rest, keep, kind);
        lemma_first_push(rest, chunks.last(), kind);
        lemma_first_push(laws::kept(rest, keep), chunks.last(), kind);
    }
}

/// A chunk that was attached to an image is found again in what is read back, if chunks of
/// its type were asked for. One that was not asked for is not there.
pub proof fn law_attached_data_is_found_again(info: InfoView, keep: Keep, kind: [u8; 4])
    ensures
        common::first_of(laws::read_back(info, keep).metadata, kind) == (if file::wanted(
            keep,
            kind,
        ) {
            common::first_of(info.metadata, kind)
        } else {
            None
        }),
{
    let front = writing::side(info.metadata, true);
    let back = writing::side(info.metadata, false);
    lemma_first_side(info.metadata, true, kind);
    lemma_first_side(info.metadata, false, kind);
    lemma_first_kept(front, keep, kind);
    lemma_first_kept(back, keep, kind);
    lemma_first_concat(laws::kept(front, keep), laws::kept(back, keep), kind);
}

proof fn lemma_sides_whole(chunks: Seq<ChunkView>)
    ensures
        writing::side(chunks, true).to_multiset().add(writing::side(chunks, false).to_multiset())
            == chunks.to_multiset(),
    decreases chunks.len(),
{
    let front = writing::side(chunks, true).to_multiset();
    let back = writing::side(chunks, false).to_multiset();
    if chunks.len() == 0 {
        assert(chunks =~= Seq::empty());
        to_multiset_len(chunks);
        assert(front.add(back) =~= chunks.to_multiset()) by {
            chunks.to_multiset_ensures();
            assert(chunks.to_multiset().len() == 0);
            assert(chunks.to_multiset() =~= Multiset::empty());
        }
    } else {
        let rest = chunks.drop_last();
        let last = chunks.last();
        lemma_last(chunks);
        lemma_sides_whole(rest);
        to_multiset_build(rest, last);
        to_multiset_build(writing::side(rest, true), last);
        to_multiset_build(writing::side(rest, false), last);
        assert(front.add(back) =~= chunks.to_multiset());
    }
}

proof fn lemma_all_kept(chunks: Seq<ChunkView>)
    ensures
        laws::kept(chunks, Keep::All) == chunks,
    decreases chunks.len(),
{
    if chunks.len() > 0 {
        lemma_last(chunks);
        lemma_all_kept(chunks.drop_last());
    } else {
        assert(laws::kept(chunks, Keep::All) =~= chunks);
    }
}

/// Where everything is asked for, all metadata is read back: the same chunks, each as often
/// as it was attached.
pub proof fn law_all_metadata_survives(info: InfoView)
    ensures
        laws::read_back(info, Keep::All).metadata.to_multiset() == info.metadata.to_multiset(),
{
    let front = writing::side(info.metadata, true);
    let back = writing::side(info.metadata, false);
    lemma_all_kept(front);
    lemma_all_kept(back);
    lemma_multiset_commutative(front, back);
    lemma_sides_whole(info.metadata);
}

/// Every chunk of a list is wanted, and goes on one side of the palette.
spec fn settled(chunks: Seq<ChunkView>, keep: Keep, before: bool) -> bool {
    forall|i: int| #![trigger chunks[i]]
        0 <= i < chunks.len() ==> file::wanted(keep, chunks[i].kind) && writing::before_palette(
            chunks[i].kind,
        ) == before
}

proof fn lemma_settled(chunks: Seq<ChunkView>, keep: Keep, before: bool)
    requires
        settled(chunks, keep, before),
    ensures
        writing::side(chunks, before) == chunks,
        writing::side(chunks, !before) == Seq::<ChunkView>::empty(),
        laws::kept(chunks, keep) == chunks,
    decreases chunks.len(),
{
    if chunks.len() > 0 {
        let rest = chunks.drop_last();
        assert forall|i: int| #![trigger rest[i]]
            0 <= i < rest.len() implies file::wanted(keep, rest[i].kind) && writing::before_palette(
            rest[i].kind,
        ) == before by {
            assert(rest[i] == chunks[i]);
        }
        lemma_settled(rest, keep, before);
        lemma_last(chunks);
        assert(chunks[chunks.len() - 1] == chunks.last());
    } else {
        assert(writing::side(chunks, before) =~= chunks);
        assert(laws::kept(chunks, keep) =~= chunks);
    }
}

proof fn lemma_side_one(chunks: Seq<ChunkView>, before: bool)
    ensures
        forall|i: int|
            0 <= i < writing::side(chunks, before).len() ==> writing::before_palette(
                (#[trigger] writing::side(chunks, before)[i]).kind,
            ) == before,
    decreases chunks.len(),
{
    if chunks.len() > 0 {
        let rest = writing::side(chunks.drop_last(), before);
        let all = writing::side(chunks, before);
        lemma_side_one(chunks.drop_last(), before);
        assert forall|i: int| 0 <= i < all.len() implies writing::before_palette(
            (#[trigger] all[i]).kind,
        ) == before by {
            if i < rest.len() {
                assert(all[i] == rest[i]);
            }
        }
    }
}

proof fn lemma_kept_settled(chunks: Seq<ChunkView>, keep: Keep, before: bool)
    requires
        forall|i: int|
            0 <= i < chunks.len() ==> writing::before_palette((#[trigger] chunks[i]).kind)
                == before,
    ensures
        settled(laws::kept(chunks, keep), keep, before),
    decreases chunks.len(),
{
    if chunks.len() > 0 {
        let rest = chunks.drop_last();
        assert forall|i: int| 0 <= i < rest.len() implies writing::before_palette(
            (#[trigger] rest[i]).kind,
        ) == before by {
            assert(rest[i] == chunks[i]);
        }
        lemma_kept_settled(rest, keep, before);
        assert(chunks[chunks.len() - 1] == chunks.last());
    }
}

proof fn lemma_side_concat(a: Seq<ChunkView>, b: Seq<ChunkView>, before: bool)
    ensures
        writing::side(a + b, before) == writing::side(a, before) + writing::side(b, before),
    decreases b.len(),
{
    if b.len() == 0 {
        assert(a + b =~= a);
        assert(writing::side(a, before) + writing::side(b, before) =~= writing::side(a, before));
    } else {
        assert((a + b).drop_last() =~= a + b.drop_last());
        assert((a + b).last() == b.last());
        lemma_side_concat(a, b.drop_last(), before);
        assert(writing::side(a + b, before) =~= writing::side(a, before) + writing::side(b, before));
    }
}

/// The order of metadata settles after one trip: what was read back is written and read again
/// without a change.
pub proof fn law_order_settles(info: InfoView, keep: Keep)
    ensures
        laws::read_back(laws::read_back(info, keep), keep) == laws::read_back(info, keep),
{
    let front = laws::kept(writing::side(info.metadata, true), keep);
    let back = laws::kept(writing::side(info.metadata, false), keep);
    lemma_side_one(info.metadata, true);
    lemma_side_one(info.metadata, false);
    lemma_kept_settled(writing::side(info.metadata, true), keep, true);
    lemma_kept_settled(writing::side(info.metadata, false), keep, false);
    lemma_settled(front, keep, true);
    lemma_settled(back, keep, false);
    lemma_side_concat(front, back, true);
    lemma_side_concat(front, back, false);
    assert(writing::side(front + back, true) =~= front);
    assert(writing::side(front + back, false) =~= back);
}

// ---------------------------------------------------------------------------------------
// What was asked for
// ---------------------------------------------------------------------------------------

/// Whether every chunk of a list has one of the types.
pub open spec fn all_listed(chunks: Seq<ChunkView>, kinds: Seq<[u8; 4]>) -> bool {
    forall|j: int|
        0 <= j < chunks.len() ==> exists|i: int|
            0 <= i < kinds.len() && #[trigger] kinds[i] == (#[trigger] chunks[j]).kind
}

/// Whether no chunk is kept without being asked for by its type.
spec fn asked(chunks: Seq<ChunkView>, keep: Keep) -> bool {
    match keep {
        Keep::Nothing => chunks.len() == 0,
        Keep::Only(kinds) => all_listed(chunks, kinds@),
        Keep::All => true,
    }
}

/// One more chunk keeps to what was asked for.
proof fn lemma_asked_more(info: InfoView, kind: [u8; 4], data: Seq<u8>, keep: Keep, before: bool)
    requires
        asked(info.metadata, keep),
    ensures
        file::absorbed(info, kind, data, keep, before) matches Ok(more) ==> asked(
            more.metadata,
            keep,
        ),
{
    if let Ok(more) = file::absorbed(info, kind, data, keep, before) {
        if let Keep::Only(kinds) = keep {
            assert forall|j: int| 0 <= j < more.metadata.len() implies exists|i: int|
                0 <= i < kinds@.len() && #[trigger] kinds@[i] == (#[trigger] more.metadata[j]).kind by {
                if j < info.metadata.len() {
                    assert(more.metadata[j] == info.metadata[j]);
                } else {
                    assert(kinds@.contains(kind));
                    let i = choose|i: int| 0 <= i < kinds@.len() && kinds@[i] == kind;
                    assert(kinds@[i] == more.metadata[j].kind);
                }
            }
        }
    }
}

proof fn lemma_contents_asked(png: Seq<u8>, p: int, verify: bool, keep: Keep, contents: Contents)
    requires
        asked(contents.info.metadata, keep),
    ensures
        file::contents_from(png, p, verify, keep, contents) matches Ok(read) ==> asked(
            read.info.metadata,
            keep,
        ),
    decreases png.len() - p,
{
    file::lemma_next_chunk(png, p, verify);
    if let Ok(Some(found)) = file::next_chunk(png, p, verify) {
        if found.kind == common::IDAT {
            lemma_contents_asked(
                png,
                found.end,
                verify,
                keep,
                file::with_idat(contents, found.data),
            );
        } else if found.kind != common::IEND {
            let before = contents.idat is None;
            lemma_asked_more(contents.info, found.kind, found.data, keep, before);
            if let Ok(info) = file::absorbed(contents.info, found.kind, found.data, keep, before) {
                lemma_contents_asked(
                    png,
                    found.end,
                    verify,
                    keep,
                    Contents { info, ..contents },
                );
            }
        }
    }
}

proof fn lemma_header_asked(png: Seq<u8>, p: int, verify: bool, keep: Keep, info: InfoView)
    requires
        asked(info.metadata, keep),
    ensures
        file::header_from(png, p, verify, keep, info) matches Ok(read) ==> asked(
            read.metadata,
            keep,
        ),
    decreases png.len() - p,
{
    file::lemma_next_chunk(png, p, verify);
    if let Ok(Some(found)) = file::next_chunk(png, p, verify) {
        if found.kind != common::IDAT && found.kind != common::IEND {
            lemma_asked_more(info, found.kind, found.data, keep, true);
            if let Ok(grown) = file::absorbed(info, found.kind, found.data, keep, true) {
                lemma_header_asked(png, found.end, verify, keep, grown);
            }
        }
    }
}

/// Whatever the file, a decoder that was given a list of types keeps no chunk of another type,
/// and one that was asked to keep nothing keeps nothing. The same holds where only the header
/// is read.
pub proof fn law_only_listed_chunks_are_kept(png: Seq<u8>, settings: Settings)
    ensures
        file::decoded(png, settings) matches Ok(image) ==> match settings.keep {
            Keep::Nothing => image.info.metadata.len() == 0,
            Keep::Only(kinds) => all_listed(image.info.metadata, kinds@),
            Keep::All => true,
        },
        file::described(png, settings.checks, settings.keep) matches Ok(info) ==> match settings.keep {
            Keep::Nothing => info.metadata.len() == 0,
            Keep::Only(kinds) => all_listed(info.metadata, kinds@),
            Keep::All => true,
        },
{
    let verify = file::verifies(settings.checks);
    if let Ok((info, p)) = file::opened(png, verify) {
        assert(info.metadata.len() == 0);
        lemma_contents_asked(
            png,
            p,
            verify,
            settings.keep,
            Contents { info, idat: None },
        );
        lemma_header_asked(png, p, verify, settings.keep, info);
    }
}

/// Metadata that is read stays.
proof fn lemma_contents_keep(
    png: Seq<u8>,
    p: int,
    verify: bool,
    keep: Keep,
    contents: Contents,
    chunk: ChunkView,
)
    requires
        contents.info.metadata.contains(chunk),
    ensures
        file::contents_from(png, p, verify, keep, contents) matches Ok(read)
            ==> read.info.metadata.contains(chunk),
    decreases png.len() - p,
{
    file::lemma_next_chunk(png, p, verify);
    if let Ok(Some(found)) = file::next_chunk(png, p, verify) {
        if found.kind == common::IDAT {
            lemma_contents_keep(
                png,
                found.end,
                verify,
                keep,
                file::with_idat(contents, found.data),
                chunk,
            );
        } else if found.kind != common::IEND {
            let before = contents.idat is None;
            if let Ok(info) = file::absorbed(contents.info, found.kind, found.data, keep, before) {
                let k = choose|k: int|
                    0 <= k < contents.info.metadata.len() && contents.info.metadata[k] == chunk;
                assert(info.metadata[k] == chunk);
                lemma_contents_keep(
                    png,
                    found.end,
                    verify,
                    keep,
                    Contents { info, ..contents },
                    chunk,
                );
            }
        }
    }
}

/// Whether a whole chunk stands at `at`, with the checksum of its type and payload behind it.
pub open spec fn intact(png: Seq<u8>, at: int) -> bool {
    let end = at + 12 + stream::be32(png, at);
    &&& 0 <= at
    &&& at + 12 <= png.len()
    &&& stream::be32(png, at) <= 0x7fff_ffff
    &&& end <= png.len()
    &&& crc32::checksum(png.subrange(at + 4, end - 4)) == stream::be32(png, end - 4)
}

/// The chunk that stands at `at`.
pub open spec fn chunk_at(png: Seq<u8>, at: int) -> ChunkView {
    ChunkView {
        kind: [png[at + 4], png[at + 5], png[at + 6], png[at + 7]],
        data: png.subrange(at + 8, at + 8 + stream::be32(png, at)),
    }
}

/// On the way to an intact chunk, what is found lies in front of it or is that chunk.
proof fn lemma_found_on_the_way(png: Seq<u8>, p: int, at: int, verify: bool)
    requires
        0 <= p,
        laws::leads_to(png, p, at),
        intact(png, at),
    ensures
        match file::next_chunk(png, p, verify) {
            Err(_) => true,
            Ok(None) => false,
            Ok(Some(found)) => {
                ||| p < found.end <= at && found.kind != common::IEND && laws::leads_to(
                    png,
                    found.end,
                    at,
                )
                ||| p <= at && found.kind == chunk_at(png, at).kind && found.data == chunk_at(png, at).data
            },
        },
    decreases at - p,
{
    if p < at {
        let end = p + 12 + stream::be32(png, p);
        lemma_found_on_the_way(png, end, at, verify);
    }
}

/// Whether a type is that of a chunk that may be carried as metadata: four letters, the first
/// of them small and the third a capital, and not `tRNS`.
pub open spec fn carriable(kind: [u8; 4]) -> bool {
    &&& 0x61 <= kind[0] <= 0x7a
    &&& 0x41 <= kind[1] <= 0x5a || 0x61 <= kind[1] <= 0x7a
    &&& 0x41 <= kind[2] <= 0x5a
    &&& 0x41 <= kind[3] <= 0x5a || 0x61 <= kind[3] <= 0x7a
    &&& kind@ != seq![0x74u8, 0x52u8, 0x4eu8, 0x53u8]
}

/// The rule on types is that of [`carriable`].
pub proof fn law_metadata_types(kind: [u8; 4])
    ensures
        common::writable(kind) == carriable(kind),
        carriable(kind) ==> kind != common::IDAT && kind != common::IEND && kind != common::PLTE,
{
    assert(common::TRNS@ =~= seq![0x74u8, 0x52u8, 0x4eu8, 0x53u8]);
    if kind@ == common::TRNS@ {
        assert(kind =~= common::TRNS);
    }
    laws::lemma_kinds();
}

proof fn lemma_contents_reach(
    png: Seq<u8>,
    p: int,
    at: int,
    verify: bool,
    keep: Keep,
    contents: Contents,
)
    requires
        0 <= p,
        laws::leads_to(png, p, at),
        intact(png, at),
        carriable(chunk_at(png, at).kind),
        file::wanted(keep, chunk_at(png, at).kind),
    ensures
        file::contents_from(png, p, verify, keep, contents) matches Ok(read)
            ==> read.info.metadata.contains(chunk_at(png, at)),
    decreases png.len() - p,
{
    let chunk = chunk_at(png, at);
    file::lemma_next_chunk(png, p, verify);
    lemma_found_on_the_way(png, p, at, verify);
    law_metadata_types(chunk.kind);
    laws::lemma_kinds();
    if let Ok(Some(found)) = file::next_chunk(png, p, verify) {
        let before = contents.idat is None;
        if found.kind == chunk.kind && found.data == chunk.data {
            assert(!common::critical(chunk.kind));
            if let Ok(info) = file::absorbed(contents.info, found.kind, found.data, keep, before) {
                assert(ChunkView { kind: found.kind, data: found.data } == chunk);
                assert(info.metadata == contents.info.metadata.push(chunk));
                assert(info.metadata[contents.info.metadata.len() as int] == chunk);
                lemma_contents_keep(
                    png,
                    found.end,
                    verify,
                    keep,
                    Contents { info, ..contents },
                    chunk,
                );
            }
        } else if found.kind == common::IDAT {
            lemma_contents_reach(
                png,
                found.end,
                at,
                verify,
                keep,
                file::with_idat(contents, found.data),
            );
        } else {
            if let Ok(info) = file::absorbed(contents.info, found.kind, found.data, keep, before) {
                lemma_contents_reach(
                    png,
                    found.end,
                    at,
                    verify,
                    keep,
                    Contents { info, ..contents },
                );
            }
        }
    }
}

/// Whether a type is asked for: by any place of a list, or because everything is.
pub open spec fn asks_for(keep: Keep, kind: [u8; 4]) -> bool {
    match keep {
        Keep::Nothing => false,
        Keep::Only(kinds) => exists|i: int| 0 <= i < kinds@.len() && #[trigger] kinds@[i] == kind,
        Keep::All => true,
    }
}

/// Whatever the file, if it decodes, an intact chunk in it that may be carried as metadata and
/// whose type is asked for is among the metadata, wherever in the list its type stands and
/// wherever in the file the chunk does.
pub proof fn law_listed_chunk_is_kept(png: Seq<u8>, at: int, settings: Settings)
    requires
        laws::leads_to(png, 8, at),
        at > 8,
        intact(png, at),
        carriable(chunk_at(png, at).kind),
        asks_for(settings.keep, chunk_at(png, at).kind),
    ensures
        file::decoded(png, settings) matches Ok(image) ==> image.info.metadata.contains(
            chunk_at(png, at),
        ),
{
    let verify = file::verifies(settings.checks);
    let chunk = chunk_at(png, at);
    if let Keep::Only(kinds) = settings.keep {
        let i = choose|i: int| 0 <= i < kinds@.len() && #[trigger] kinds@[i] == chunk.kind;
        assert(kinds@.contains(chunk.kind));
    }
    lemma_found_on_the_way(png, 8, at, verify);
    if let Ok((info, p)) = file::opened(png, verify) {
        law_metadata_types(chunk.kind);
        laws::lemma_kinds();
        assert(chunk.kind != common::IHDR);
        lemma_contents_reach(
            png,
            p,
            at,
            verify,
            settings.keep,
            Contents { info, idat: None },
        );
    }
}

proof fn lemma_kept_exactly(chunks: Seq<ChunkView>, keep: Keep)
    ensures
        laws::kept(chunks, keep) == chunks.filter(|c: ChunkView| asks_for(keep, c.kind)),
    decreases chunks.len(),
{
    reveal(Seq::filter);
    if chunks.len() > 0 {
        let kind = chunks.last().kind;
        lemma_kept_exactly(chunks.drop_last(), keep);
        if let Keep::Only(kinds) = keep {
            if kinds@.contains(kind) {
                let i = choose|i: int| 0 <= i < kinds@.len() && kinds@[i] == kind;
                assert(kinds@[i] == kind);
            }
        }
        assert(file::wanted(keep, kind) == asks_for(keep, kind));
    }
}

proof fn lemma_kept_sides(chunks: Seq<ChunkView>, keep: Keep)
    ensures
        laws::kept(writing::side(chunks, true), keep).to_multiset().add(
            laws::kept(writing::side(chunks, false), keep).to_multiset(),
        ) == laws::kept(chunks, keep).to_multiset(),
    decreases chunks.len(),
{
    let front = laws::kept(writing::side(chunks, true), keep).to_multiset();
    let back = laws::kept(writing::side(chunks, false), keep).to_multiset();
    if chunks.len() == 0 {
        let none = laws::kept(chunks, keep);
        assert(none =~= Seq::empty());
        to_multiset_len(none);
        assert(front.add(back) =~= none.to_multiset()) by {
            none.to_multiset_ensures();
            assert(none.to_multiset().len() == 0);
            assert(none.to_multiset() =~= Multiset::empty());
        }
    } else {
        let rest = chunks.drop_last();
        let last = chunks.last();
        lemma_kept_sides(rest, keep);
        let a = writing::side(rest, true);
        let b = writing::side(rest, false);
        assert(a.push(last).drop_last() =~= a);
        assert(b.push(last).drop_last() =~= b);
        to_multiset_build(laws::kept(rest, keep), last);
        to_multiset_build(laws::kept(a, keep), last);
        to_multiset_build(laws::kept(b, keep), last);
        assert(front.add(back) =~= laws::kept(chunks, keep).to_multiset());
    }
}

/// What stands in one list stands in any list of the same elements.
proof fn lemma_same_elements(a: Seq<ChunkView>, b: Seq<ChunkView>, chunk: ChunkView)
    requires
        a.to_multiset() == b.to_multiset(),
        b.contains(chunk),
    ensures
        a.contains(chunk),
{
    a.to_multiset_ensures();
    b.to_multiset_ensures();
    assert(b.to_multiset().count(chunk) > 0);
}

proof fn lemma_read_metadata(chunks: Seq<ChunkView>, keep: Keep)
    ensures
        (laws::kept(writing::side(chunks, true), keep) + laws::kept(
            writing::side(chunks, false),
            keep,
        )).to_multiset() == chunks.filter(|c: ChunkView| asks_for(keep, c.kind)).to_multiset(),
{
    let front = laws::kept(writing::side(chunks, true), keep);
    let back = laws::kept(writing::side(chunks, false), keep);
    lemma_multiset_commutative(front, back);
    lemma_kept_sides(chunks, keep);
    lemma_kept_exactly(chunks, keep);
}

proof fn lemma_asked_is_read(chunks: Seq<ChunkView>, keep: Keep, j: int)
    requires
        0 <= j < chunks.len(),
        asks_for(keep, chunks[j].kind),
    ensures
        (laws::kept(writing::side(chunks, true), keep) + laws::kept(
            writing::side(chunks, false),
            keep,
        )).contains(chunks[j]),
{
    let read = laws::kept(writing::side(chunks, true), keep) + laws::kept(
        writing::side(chunks, false),
        keep,
    );
    let wish = |c: ChunkView| asks_for(keep, c.kind);
    assert(wish(chunks[j]));
    chunks.lemma_filter_contains(wish, j);
    lemma_read_metadata(chunks, keep);
    lemma_same_elements(read, chunks.filter(wish), chunks[j]);
}

/// The chunks attached to an image that is written and read again come back if their type is
/// asked for, each as often as it was attached and with its payload, and no others do: with a
/// list of types, exactly those whose type equals an element of the list.
pub proof fn law_attached_chunks_are_read_back(
    info: InfoView,
    data: Seq<u8>,
    strategy: FilterStrategy,
    settings: Settings,
)
    requires
        writing::writable(info, data) is Ok,
        file::palette_covers(info, data) is Ok,
        file::within(info.sequential_size(), settings.limit),
    ensures
        file::decoded(writing::file_bytes(info, data, strategy), settings) matches Ok(image) && {
            &&& image.info.metadata.to_multiset() == info.metadata.filter(
                |c: ChunkView| asks_for(settings.keep, c.kind),
            ).to_multiset()
            &&& forall|j: int|
                0 <= j < info.metadata.len() && asks_for(
                    settings.keep,
                    (#[trigger] info.metadata[j]).kind,
                ) ==> image.info.metadata.contains(info.metadata[j])
        },
{
    let keep = settings.keep;
    laws::law_file_reads_back(info, data, strategy, settings);
    lemma_read_metadata(info.metadata, keep);
    let read = laws::read_back(info, keep).metadata;
    assert forall|j: int| 0 <= j < info.metadata.len() && asks_for(
        keep,
        (#[trigger] info.metadata[j]).kind,
    ) implies read.contains(info.metadata[j]) by {
        lemma_asked_is_read(info.metadata, keep, j);
    }
}

/// What is found of a type is the payload of the first chunk that has it, and nothing is found
/// exactly if none has.
pub proof fn law_first_chunk_is_found(chunks: Seq<ChunkView>, kind: [u8; 4])
    ensures
        match common::first_of(chunks, kind) {
            Some(data) => exists|i: int|
                0 <= i < chunks.len() && (#[trigger] chunks[i]).kind == kind && chunks[i].data
                    == data && forall|k: int|
                    0 <= k < i ==> (#[trigger] chunks[k]).kind != kind,
            None => forall|i: int| 0 <= i < chunks.len() ==> (#[trigger] chunks[i]).kind != kind,
        },
    decreases chunks.len(),
{
    if chunks.len() > 0 {
        if chunks[0].kind == kind {
            assert(chunks[0].data == common::first_of(chunks, kind)->0);
        } else {
            let rest = chunks.skip(1);
            law_first_chunk_is_found(rest, kind);
            match common::first_of(rest, kind) {
                Some(data) => {
                    let j = choose|j: int|
                        0 <= j < rest.len() && (#[trigger] rest[j]).kind == kind && rest[j].data
                            == data && forall|k: int|
                            0 <= k < j ==> (#[trigger] rest[k]).kind != kind;
                    assert(chunks[j + 1] == rest[j]);
                    assert forall|k: int| 0 <= k < j + 1 implies (#[trigger] chunks[k]).kind
                        != kind by {
                        if k > 0 {
                            assert(chunks[k] == rest[k - 1]);
                        }
                    }
                },
                None => {
                    assert forall|i: int| 0 <= i < chunks.len() implies (#[trigger] chunks[i]).kind
                        != kind by {
                        if i > 0 {
                            assert(chunks[i] == rest[i - 1]);
                        }
                    }
                },
            }
        }
    }
}

} // verus!
