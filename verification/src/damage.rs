//! What becomes of a file into which a chunk was put, or whose image data was altered.

use vstd::prelude::*;
use crate::common;
use crate::crc32;
use crate::decoder::Keep;
use crate::error::Error;
use crate::file;
use crate::file::{Contents, Found, Settings};
use crate::inflate::InflateError;
use crate::laws;
use crate::stream;
use crate::truncation;
use crate::writing;

verus! {

/// Whether a whole chunk stands at `p` of a file.
pub open spec fn whole_at(png: Seq<u8>, p: int) -> bool {
    &&& 0 <= p
    &&& p + 8 <= png.len()
    &&& stream::be32(png, p) <= common::MAX_CHUNK_BYTES
    &&& p + 12 + stream::be32(png, p) <= png.len()
}

/// Whether the checksum of the chunk at `p` is right.
pub open spec fn intact_at(png: Seq<u8>, p: int) -> bool {
    let end = p + 12 + stream::be32(png, p);
    crc32::checksum(png.subrange(p + 4, end - 4)) == stream::be32(png, end - 4)
}

/// Whether `bytes` are one whole chunk.
pub open spec fn one_chunk(bytes: Seq<u8>) -> bool {
    whole_at(bytes, 0) && bytes.len() == 12 + stream::be32(bytes, 0)
}

/// What is found at a whole chunk of the front is the same whatever follows the front.
pub proof fn lemma_step(front: Seq<u8>, tail: Seq<u8>, p: int, verify: bool)
    requires
        whole_at(front, p),
    ensures
        ({
            let kind = file::kind_at(front, p + 4);
            let end = p + 12 + stream::be32(front, p);
            file::next_chunk(front + tail, p, verify) == (if !verify || intact_at(front, p) {
                Ok::<Option<Found>, Error>(
                    Some(Found { kind, data: front.subrange(p + 8, end - 4), end }),
                )
            } else if common::critical(kind) {
                Err::<Option<Found>, Error>(Error::BadChunkCrc { chunk: kind })
            } else {
                file::next_chunk(front + tail, end, verify)
            })
        }),
{
    let png = front + tail;
    let end = p + 12 + stream::be32(front, p);
    assert(stream::be32(png, p) == stream::be32(front, p));
    assert(file::kind_at(png, p + 4) =~= file::kind_at(front, p + 4));
    assert(png.subrange(p + 4, end - 4) =~= front.subrange(p + 4, end - 4));
    assert(png.subrange(p + 8, end - 4) =~= front.subrange(p + 8, end - 4));
    assert(stream::be32(png, end - 4) == stream::be32(front, end - 4));
}

/// Whether two files with the same front yield the same chunk of it from `p` on, or each the
/// first chunk behind it.
spec fn alike(front: Seq<u8>, tail: Seq<u8>, other: Seq<u8>, p: int, verify: bool) -> bool {
    let n = front.len() as int;
    let a = file::next_chunk(front + tail, p, verify);
    let b = file::next_chunk(front + other, p, verify);
    ||| a == b && a is Err
    ||| a == b && (a matches Ok(Some(found)) && p < found.end && laws::leads_to(front, found.end, n)
        && found.end <= n && found.kind != common::IEND)
    ||| a == file::next_chunk(front + tail, n, verify) && b == file::next_chunk(
        front + other,
        n,
        verify,
    )
}

proof fn lemma_alike(front: Seq<u8>, tail: Seq<u8>, other: Seq<u8>, p: int, verify: bool)
    requires
        0 <= p <= front.len(),
        laws::leads_to(front, p, front.len() as int),
    ensures
        alike(front, tail, other, p, verify),
    decreases front.len() - p,
{
    if p < front.len() {
        lemma_step(front, tail, p, verify);
        lemma_step(front, other, p, verify);
        lemma_alike(front, tail, other, p + 12 + stream::be32(front, p), verify);
    }
}

/// Where what follows the front of a file is refused whatever came before, the file is, unless
/// the front is refused itself.
proof fn lemma_refused_behind(
    front: Seq<u8>,
    tail: Seq<u8>,
    other: Seq<u8>,
    p: int,
    verify: bool,
    keep: Keep,
    contents: Contents,
    error: Error,
)
    requires
        0 <= p <= front.len(),
        laws::leads_to(front, p, front.len() as int),
        file::contents_from(front + other, p, verify, keep, contents) is Ok,
        forall|c: Contents|
            #[trigger] file::contents_from(tail, 0, verify, keep, c) == Err::<Contents, Error>(
                error,
            ),
    ensures
        file::contents_from(front + tail, p, verify, keep, contents) == Err::<Contents, Error>(
            error,
        ),
    decreases front.len() - p,
{
    let n = front.len() as int;
    lemma_alike(front, tail, other, p, verify);
    let a = file::next_chunk(front + tail, p, verify);
    file::lemma_next_chunk(front + tail, p, verify);
    file::lemma_next_chunk(front + other, p, verify);
    if a == file::next_chunk(front + tail, n, verify) {
        laws::lemma_contents_moved(front, tail, 0, verify, keep, contents);
        file::lemma_next_chunk(front + tail, n, verify);
        assert(file::contents_from(tail, 0, verify, keep, contents) == Err::<Contents, Error>(
            error,
        ));
        assert(file::contents_from(front + tail, p, verify, keep, contents) == file::contents_from(
            front + tail,
            n,
            verify,
            keep,
            contents,
        ));
    } else {
        let found = a->Ok_0->0;
        if found.kind == common::IDAT {
            let next = file::with_idat(contents, found.data);
            lemma_refused_behind(front, tail, other, found.end, verify, keep, next, error);
        } else {
            let info = file::absorbed(
                contents.info,
                found.kind,
                found.data,
                keep,
                contents.idat is None,
            )->Ok_0;
            let next = Contents { info, ..contents };
            lemma_refused_behind(front, tail, other, found.end, verify, keep, next, error);
        }
    }
}

/// What a file opens as does not depend on what follows the front that holds its header.
proof fn lemma_opened_alike(front: Seq<u8>, tail: Seq<u8>, other: Seq<u8>, verify: bool)
    requires
        laws::leads_to(front, 8, front.len() as int),
        file::opened(front + other, verify) is Ok,
    ensures
        ({
            let (info, p) = file::opened(front + other, verify)->Ok_0;
            ||| {
                &&& file::opened(front + tail, verify) == file::opened(front + other, verify)
                &&& 8 < p <= front.len()
                &&& laws::leads_to(front, p, front.len() as int)
            }
            ||| file::next_chunk(front + tail, 8, verify) == file::next_chunk(
                front + tail,
                front.len() as int,
                verify,
            )
        }),
        file::signed(front + tail),
{
    assert((front + tail).take(8) =~= front.take(8));
    assert((front + other).take(8) =~= front.take(8));
    lemma_alike(front, tail, other, 8, verify);
    file::lemma_next_chunk(front + other, 8, verify);
}

/// A critical chunk with a wrong checksum is named in the refusal: a file that decodes, with
/// such a chunk put between two of its chunks, in front of its end, is refused because of that
/// chunk.
#[verifier::rlimit(30)]
pub proof fn law_damaged_critical_chunk_is_named(
    front: Seq<u8>,
    bad: Seq<u8>,
    rest: Seq<u8>,
    settings: Settings,
)
    requires
        settings.checks !is Nothing,
        file::decoded(front + rest, settings) is Ok,
        laws::leads_to(front, 8, front.len() as int),
        one_chunk(bad),
        common::critical(file::kind_at(bad, 4)),
        !intact_at(bad, 0),
    ensures
        file::decoded(front + bad + rest, settings) == Err::<file::ImageView, Error>(
            Error::BadChunkCrc { chunk: file::kind_at(bad, 4) },
        ),
{
    let tail = bad + rest;
    let n = front.len() as int;
    let error = Error::BadChunkCrc { chunk: file::kind_at(bad, 4) };
    assert(front + bad + rest =~= front + tail);
    lemma_step(bad, rest, 0, true);
    lemma_opened_alike(front, tail, rest, true);
    let (info, p) = file::opened(front + rest, true)->Ok_0;
    if file::next_chunk(front + tail, 8, true) == file::next_chunk(front + tail, n, true) {
        laws::lemma_moved(front, tail, 0, true);
    } else {
        let start = Contents { info, idat: None };
        assert forall|c: Contents| #[trigger]
            file::contents_from(tail, 0, true, settings.keep, c) == Err::<Contents, Error>(error) by {}
        lemma_refused_behind(front, tail, rest, p, true, settings.keep, start, error);
    }
}

/// A critical chunk that the decoder does not know is refused by its name: a file that decodes,
/// with such a chunk put between two of its chunks, behind its header and in front of its end,
/// is refused because of that chunk.
#[verifier::rlimit(30)]
pub proof fn law_unknown_critical_chunk_is_refused(
    front: Seq<u8>,
    strange: Seq<u8>,
    rest: Seq<u8>,
    settings: Settings,
)
    requires
        file::decoded(front + rest, settings) is Ok,
        laws::leads_to(front, 8, front.len() as int),
        file::opened(front, file::verifies(settings.checks)) is Ok,
        one_chunk(strange),
        intact_at(strange, 0),
        common::critical(file::kind_at(strange, 4)),
        file::kind_at(strange, 4) != common::PLTE,
        file::kind_at(strange, 4) != common::IDAT,
        file::kind_at(strange, 4) != common::IEND,
    ensures
        file::decoded(front + strange + rest, settings) == Err::<file::ImageView, Error>(
            Error::UnknownCriticalChunk { chunk: file::kind_at(strange, 4) },
        ),
{
    let verify = file::verifies(settings.checks);
    let tail = strange + rest;
    let kind = file::kind_at(strange, 4);
    let error = Error::UnknownCriticalChunk { chunk: kind };
    assert(front + strange + rest =~= front + tail);
    lemma_step(strange, rest, 0, verify);
    laws::lemma_kinds();
    lemma_header_in_front(front, tail, verify);
    lemma_header_in_front(front, rest, verify);
    let (info, p) = file::opened(front, verify)->Ok_0;
    let contents = Contents { info, idat: None };
    assert forall|c: Contents| #[trigger]
        file::contents_from(tail, 0, verify, settings.keep, c) == Err::<Contents, Error>(error) by {
        file::lemma_next_chunk(tail, 0, verify);
    }
    lemma_refused_behind(front, tail, rest, p, verify, settings.keep, contents, error);
}

/// A file opens as the front that holds its header does.
proof fn lemma_header_in_front(front: Seq<u8>, tail: Seq<u8>, verify: bool)
    requires
        laws::leads_to(front, 8, front.len() as int),
        file::opened(front, verify) is Ok,
    ensures
        file::opened(front + tail, verify) == file::opened(front, verify),
        ({
            let (info, p) = file::opened(front, verify)->Ok_0;
            &&& 8 < p <= front.len()
            &&& laws::leads_to(front, p, front.len() as int)
        }),
{
    let n = front.len() as int;
    let none = Seq::<u8>::empty();
    assert(front + none =~= front);
    assert((front + tail).take(8) =~= front.take(8));
    lemma_alike(front, tail, none, 8, verify);
    file::lemma_next_chunk(front, 8, verify);
    assert(file::next_chunk(front, n, verify) == Ok::<Option<Found>, Error>(None));
}

// ---------------------------------------------------------------------------------------
// Altered image data
// ---------------------------------------------------------------------------------------

/// The image data in the chunks of a file from `p` on, joined.
pub open spec fn data_from(png: Seq<u8>, p: int, verify: bool) -> Seq<u8>
    decreases png.len() - p,
{
    proof {
        file::lemma_next_chunk(png, p, verify);
    }
    match file::next_chunk(png, p, verify) {
        Ok(Some(found)) => if found.kind == common::IEND {
            Seq::empty()
        } else if found.kind == common::IDAT {
            found.data + data_from(png, found.end, verify)
        } else {
            data_from(png, found.end, verify)
        },
        _ => Seq::empty(),
    }
}

/// Once image data has begun, what came before is carried along and decides nothing.
proof fn lemma_carried_along(
    png: Seq<u8>,
    p: int,
    verify: bool,
    keep: Keep,
    info: common::InfoView,
    x: Seq<u8>,
    y: Seq<u8>,
)
    ensures
        match file::contents_from(png, p, verify, keep, Contents { info, idat: Some(x) }) {
            Err(error) => file::contents_from(
                png,
                p,
                verify,
                keep,
                Contents { info, idat: Some(y) },
            ) == Err::<Contents, Error>(error),
            Ok(read) => {
                &&& read.idat == Some(x + data_from(png, p, verify))
                &&& file::contents_from(png, p, verify, keep, Contents { info, idat: Some(y) })
                    == Ok::<Contents, Error>(
                    Contents { idat: Some(y + data_from(png, p, verify)), ..read },
                )
            },
        },
    decreases png.len() - p,
{
    file::lemma_next_chunk(png, p, verify);
    assert(x + Seq::<u8>::empty() =~= x);
    assert(y + Seq::<u8>::empty() =~= y);
    if let Ok(Some(found)) = file::next_chunk(png, p, verify) {
        if found.kind == common::IEND {
        } else if found.kind == common::IDAT {
            let (d, more) = (found.data, data_from(png, found.end, verify));
            lemma_carried_along(png, found.end, verify, keep, info, x + d, y + d);
            assert(x + d + more =~= x + (d + more));
            assert(y + d + more =~= y + (d + more));
        } else if let Ok(next) = file::absorbed(info, found.kind, found.data, keep, false) {
            lemma_carried_along(png, found.end, verify, keep, next, x, y);
        }
    }
}

/// The image data of a file in which one chunk of it was replaced: what stood in front of the
/// chunk, and what stood behind it.
proof fn lemma_replaced(
    front: Seq<u8>,
    a: Seq<u8>,
    b: Seq<u8>,
    rest: Seq<u8>,
    p: int,
    verify: bool,
    keep: Keep,
    contents: Contents,
) -> (parts: (Seq<u8>, Seq<u8>))
    requires
        0 <= p <= front.len(),
        laws::leads_to(front, p, front.len() as int),
        a.len() <= common::MAX_CHUNK_BYTES,
        b.len() <= common::MAX_CHUNK_BYTES,
        file::contents_from(
            front + (writing::chunk_bytes(common::IDAT, a) + rest),
            p,
            verify,
            keep,
            contents,
        ) is Ok,
    ensures
        ({
            let read = file::contents_from(
                front + (writing::chunk_bytes(common::IDAT, a) + rest),
                p,
                verify,
                keep,
                contents,
            )->Ok_0;
            &&& read.idat == Some(parts.0 + a + parts.1)
            &&& file::contents_from(
                front + (writing::chunk_bytes(common::IDAT, b) + rest),
                p,
                verify,
                keep,
                contents,
            ) == Ok::<Contents, Error>(Contents { idat: Some(parts.0 + b + parts.1), ..read })
        }),
    decreases front.len() - p,
{
    let n = front.len() as int;
    let first = writing::chunk_bytes(common::IDAT, a) + rest;
    let second = writing::chunk_bytes(common::IDAT, b) + rest;
    lemma_alike(front, second, first, p, verify);
    file::lemma_next_chunk(front + first, p, verify);
    file::lemma_next_chunk(front + second, p, verify);
    let found = file::next_chunk(front + second, p, verify);
    if found == file::next_chunk(front + first, p, verify) && (found matches Ok(Some(f)) && p
        < f.end <= n && laws::leads_to(front, f.end, n) && f.kind != common::IEND) {
        let f = found->Ok_0->0;
        if f.kind == common::IDAT {
            let next = file::with_idat(contents, f.data);
            lemma_replaced(front, a, b, rest, f.end, verify, keep, next)
        } else {
            let info = file::absorbed(
                contents.info,
                f.kind,
                f.data,
                keep,
                contents.idat is None,
            )->Ok_0;
            let next = Contents { info, ..contents };
            lemma_replaced(front, a, b, rest, f.end, verify, keep, next)
        }
    } else {
        lemma_first_chunk(front, a, rest, verify, keep, contents);
        lemma_first_chunk(front, b, rest, verify, keep, contents);
        file::lemma_next_chunk(front + first, n, verify);
        file::lemma_next_chunk(front + second, n, verify);
        let before = match contents.idat {
            Some(data) => data,
            None => Seq::empty(),
        };
        assert(Seq::<u8>::empty() + a =~= a);
        assert(Seq::<u8>::empty() + b =~= b);
        lemma_carried_along(rest, 0, verify, keep, contents.info, before + a, before + b);
        (before, data_from(rest, 0, verify))
    }
}

/// A file whose front ends at a chunk of image data goes on with that.
proof fn lemma_first_chunk(
    front: Seq<u8>,
    a: Seq<u8>,
    rest: Seq<u8>,
    verify: bool,
    keep: Keep,
    contents: Contents,
)
    requires
        a.len() <= common::MAX_CHUNK_BYTES,
    ensures
        ({
            let tail = writing::chunk_bytes(common::IDAT, a) + rest;
            &&& file::next_chunk(front + tail, front.len() as int, verify) is Ok
            &&& file::contents_from(front + tail, front.len() as int, verify, keep, contents)
                == file::contents_from(rest, 0, verify, keep, file::with_idat(contents, a))
        }),
{
    let chunk = writing::chunk_bytes(common::IDAT, a);
    let tail = chunk + rest;
    assert(tail.subrange(0, chunk.len() as int) =~= chunk);
    laws::lemma_chunk_found(tail, 0, common::IDAT, a, verify);
    laws::lemma_kinds();
    laws::lemma_moved(front, tail, 0, verify);
    laws::lemma_contents_moved(front, tail, 0, verify, keep, contents);
    file::lemma_next_chunk(tail, 0, verify);
    laws::lemma_contents_moved(chunk, rest, 0, verify, keep, file::with_idat(contents, a));
}

/// Where the checksum behind the DEFLATE data of a stream stands that expands to at most
/// `limit` bytes.
pub open spec fn checksum_at(data: Seq<u8>, limit: nat) -> int {
    2 + stream::inflate(data.skip(2), limit)->Ok_0.1
}

/// Whether two streams differ in the checksum behind the DEFLATE data, and nowhere else.
pub open spec fn checksum_altered(a: Seq<u8>, b: Seq<u8>, limit: nat) -> bool {
    let t = checksum_at(a, limit);
    &&& a.len() == b.len()
    &&& forall|i: int| 0 <= i < a.len() && !(t <= i < t + 4) ==> #[trigger] a[i] == b[i]
    &&& stream::be32(a, t) != stream::be32(b, t)
}

/// A stream with an altered checksum expands to the same bytes, unless the checksum is looked
/// at.
pub proof fn law_altered_checksum_in_a_stream(a: Seq<u8>, b: Seq<u8>, limit: nat, verify: bool)
    requires
        stream::zlib(a, limit, verify) is Ok,
        checksum_altered(a, b, limit),
    ensures
        verify ==> stream::zlib(b, limit, true) == Err::<Seq<u8>, InflateError>(
            InflateError::WrongChecksum,
        ),
        !verify ==> stream::zlib(b, limit, false) == stream::zlib(a, limit, false),
{
    let (x, y) = (a.skip(2), b.skip(2));
    let (out, taken) = stream::inflate(x, limit)->Ok_0;
    let q = stream::blocks(x, 0, Seq::empty(), limit)->Ok_0.1;
    truncation::lemma_blocks_local(x, x, 0, 0, Seq::empty(), limit);
    assert(truncation::agree(x, y, taken)) by {
        assert forall|i: int| 0 <= i < taken implies #[trigger] x[i] == y[i] by {
            assert(a[i + 2] == b[i + 2]);
        }
    }
    truncation::lemma_blocks_local(x, y, taken, 0, Seq::empty(), limit);
    assert(q <= 8 * taken);
    assert(taken >= 1);
    assert(a[0] == b[0] && a[1] == b[1]);
}

/// A file whose image data was given another checksum, with the checksum of the chunk made to
/// fit, is refused where the inner checksum is looked at, and decodes to the same image where
/// it is not.
///
/// The chunk stands between `front`, which holds the header, and `rest`, and there may be image
/// data in both.
pub proof fn law_altered_checksum_in_a_file(
    front: Seq<u8>,
    a: Seq<u8>,
    b: Seq<u8>,
    rest: Seq<u8>,
    settings: Settings,
)
    requires
        laws::leads_to(front, 8, front.len() as int),
        file::opened(front, file::verifies(settings.checks)) is Ok,
        a.len() <= common::MAX_CHUNK_BYTES,
        b.len() <= common::MAX_CHUNK_BYTES,
        ({
            let png = front + (writing::chunk_bytes(common::IDAT, a) + rest);
            let altered = front + (writing::chunk_bytes(common::IDAT, b) + rest);
            let (info, idat) = file::parsed(png, settings)->Ok_0;
            &&& file::decoded(png, settings) is Ok
            &&& checksum_altered(
                idat,
                file::parsed(altered, settings)->Ok_0.1,
                info.decompressed_size() as nat,
            )
        }),
    ensures
        ({
            let png = front + (writing::chunk_bytes(common::IDAT, a) + rest);
            let altered = front + (writing::chunk_bytes(common::IDAT, b) + rest);
            file::decoded(altered, settings) == (if settings.checks is Full {
                Err::<file::ImageView, Error>(Error::Inflate(InflateError::WrongChecksum))
            } else {
                file::decoded(png, settings)
            })
        }),
{
    let verify = file::verifies(settings.checks);
    let first = writing::chunk_bytes(common::IDAT, a) + rest;
    let second = writing::chunk_bytes(common::IDAT, b) + rest;
    lemma_header_in_front(front, first, verify);
    lemma_header_in_front(front, second, verify);
    let (head, p) = file::opened(front, verify)->Ok_0;
    let start = Contents { info: head, idat: None };
    let (before, behind) = lemma_replaced(
        front,
        a,
        b,
        rest,
        p,
        verify,
        settings.keep,
        start,
    );
    let (info, idat) = file::parsed(front + first, settings)->Ok_0;
    assert(file::parsed(front + second, settings) == Ok::<(common::InfoView, Seq<u8>), Error>(
        (info, before + b + behind),
    ));
    law_altered_checksum_in_a_stream(
        idat,
        before + b + behind,
        info.decompressed_size() as nat,
        settings.checks is Full,
    );
}

} // verus!
