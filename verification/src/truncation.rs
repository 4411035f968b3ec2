//! Streams and files that stop short.

use vstd::prelude::*;
use crate::bits;
use crate::code;
use crate::common;
use crate::common::{ChunkView, InfoView};
use crate::crc32;
use crate::decoder::{Checks, Keep};
use crate::encoder;
use crate::encoder::FilterStrategy;
use crate::encoding;
use crate::error::Error;
use crate::file;
use crate::file::{Contents, Found, Settings};
use crate::laws;
use crate::roundtrip;
use crate::stream;
use crate::tables;
use crate::writing;
use crate::writing::IDAT_CHUNK_BYTES;

verus! {

// ---------------------------------------------------------------------------------------
// What is read from the front of the data alone
// ---------------------------------------------------------------------------------------

/// Whether two sequences begin with the same `k` bytes.
pub open spec fn agree(a: Seq<u8>, b: Seq<u8>, k: int) -> bool {
    &&& 0 <= k <= a.len()
    &&& k <= b.len()
    &&& forall|i: int| 0 <= i < k ==> #[trigger] a[i] == b[i]
}

proof fn lemma_bit_local(a: Seq<u8>, b: Seq<u8>, k: int, i: int)
    requires
        agree(a, b, k),
        i < 8 * k,
    ensures
        bits::bit(a, i) == bits::bit(b, i),
{
    if 0 <= i {
        assert(a[i / 8] == b[i / 8]);
    }
}

proof fn lemma_value_local(a: Seq<u8>, b: Seq<u8>, k: int, p: int, n: nat)
    requires
        agree(a, b, k),
        p + n <= 8 * k,
    ensures
        bits::value(a, p, n) == bits::value(b, p, n),
    decreases n,
{
    if n > 0 {
        lemma_value_local(a, b, k, p, (n - 1) as nat);
        lemma_bit_local(a, b, k, p + n - 1);
    }
}

proof fn lemma_code_value_local(a: Seq<u8>, b: Seq<u8>, k: int, p: int, n: nat)
    requires
        agree(a, b, k),
        p + n <= 8 * k,
    ensures
        bits::code_value(a, p, n) == bits::code_value(b, p, n),
    decreases n,
{
    if n > 0 {
        lemma_code_value_local(a, b, k, p, (n - 1) as nat);
        lemma_bit_local(a, b, k, p + n - 1);
    }
}

/// A codeword that lies in the front of two sequences is found in both.
proof fn lemma_decode_local(lengths: Seq<u8>, a: Seq<u8>, b: Seq<u8>, k: int, p: int)
    requires
        agree(a, b, k),
    ensures
        code::decode(lengths, a, p) matches Some(symbol) ==> {
            &&& code::has_code(lengths, symbol)
            &&& p + lengths[symbol] <= 8 * k ==> code::decode(lengths, b, p) == Some(symbol)
        },
{
    code::lemma_decode_some(lengths, a, p);
    if let Some(symbol) = code::decode(lengths, a, p) {
        if p + lengths[symbol] <= 8 * k {
            lemma_code_value_local(a, b, k, p, lengths[symbol] as nat);
            code::lemma_decode_is(lengths, b, p, symbol);
        }
    }
}

proof fn lemma_back_reference_local(dist: Seq<u8>, a: Seq<u8>, b: Seq<u8>, k: int, p: int, i: int)
    requires
        agree(a, b, k),
    ensures
        stream::back_reference(dist, a, p, i) matches Ok((_, _, r)) ==> r >= p && (r <= 8
            * k ==> stream::back_reference(dist, b, p, i) == stream::back_reference(
            dist,
            a,
            p,
            i,
        )),
{
    let extra = tables::LEN_EXTRA@[i] as nat;
    let q = p + extra;
    lemma_decode_local(dist, a, b, k, q);
    if let Ok((_, _, r)) = stream::back_reference(dist, a, p, i) {
        if r <= 8 * k {
            let symbol = code::decode(dist, a, q)->0;
            let far = tables::DIST_EXTRA@[symbol] as nat;
            lemma_value_local(a, b, k, p, extra);
            lemma_value_local(a, b, k, q + dist[symbol], far);
        }
    }
}

proof fn lemma_symbols_local(
    litlen: Seq<u8>,
    dist: Seq<u8>,
    a: Seq<u8>,
    b: Seq<u8>,
    k: int,
    p: int,
    out: Seq<u8>,
    limit: nat,
)
    requires
        agree(a, b, k),
    ensures
        stream::symbols(litlen, dist, a, p, out, limit) matches Ok((_, q)) ==> q <= 8 * k
            ==> stream::symbols(litlen, dist, b, p, out, limit) == stream::symbols(
            litlen,
            dist,
            a,
            p,
            out,
            limit,
        ),
    decreases limit - out.len(),
{
    lemma_decode_local(litlen, a, b, k, p);
    stream::lemma_symbols_progress(litlen, dist, a, p, out, limit);
    if let Some(symbol) = code::decode(litlen, a, p) {
        let q = p + litlen[symbol];
        if symbol < 256 {
            if out.len() < limit {
                let next = out.push(symbol as u8);
                lemma_symbols_local(litlen, dist, a, b, k, q, next, limit);
                stream::lemma_symbols_progress(litlen, dist, a, q, next, limit);
            }
        } else if 256 < symbol <= 285 {
            lemma_back_reference_local(dist, a, b, k, q, symbol - 257);
            if let Ok((length, distance, r)) = stream::back_reference(dist, a, q, symbol - 257) {
                stream::lemma_copy_match_len(out, distance, length);
                tables::lemma_len_range();
                if distance <= out.len() && out.len() + length <= limit {
                    let next = stream::copy_match(out, distance, length);
                    lemma_symbols_local(litlen, dist, a, b, k, r, next, limit);
                    stream::lemma_symbols_progress(litlen, dist, a, r, next, limit);
                }
            }
        }
    }
}

proof fn lemma_code_lengths_local(
    clcl: Seq<u8>,
    a: Seq<u8>,
    b: Seq<u8>,
    k: int,
    p: int,
    lengths: Seq<u8>,
    total: nat,
)
    requires
        agree(a, b, k),
    ensures
        stream::code_lengths(clcl, a, p, lengths, total) matches Ok((_, q)) ==> q <= 8
            * k ==> stream::code_lengths(clcl, b, p, lengths, total) == stream::code_lengths(
            clcl,
            a,
            p,
            lengths,
            total,
        ),
    decreases total - lengths.len(),
{
    if lengths.len() < total {
        lemma_decode_local(clcl, a, b, k, p);
        if let Some(symbol) = code::decode(clcl, a, p) {
            let q = p + clcl[symbol];
            if symbol < 16 {
                let next = lengths.push(symbol as u8);
                lemma_code_lengths_local(clcl, a, b, k, q, next, total);
                stream::lemma_code_lengths_progress(clcl, a, q, next, total);
            } else if !(symbol == 16 && lengths.len() == 0) {
                let (length, least, extra) = stream::repeat_rule(symbol, lengths);
                let n = least + bits::value(a, q, extra);
                if lengths.len() + n <= total {
                    let next = stream::repeated(lengths, length, n);
                    lemma_code_lengths_local(clcl, a, b, k, q + extra, next, total);
                    stream::lemma_code_lengths_progress(clcl, a, q + extra, next, total);
                    if q + extra <= 8 * k {
                        lemma_value_local(a, b, k, q, extra);
                    }
                }
            }
        }
    }
}

proof fn lemma_clcl_lengths_local(a: Seq<u8>, b: Seq<u8>, k: int, p: int, n: nat)
    requires
        agree(a, b, k),
        p + 3 * n <= 8 * k,
    ensures
        stream::clcl_lengths(a, p, n) == stream::clcl_lengths(b, p, n),
    decreases n,
{
    if n > 0 {
        lemma_clcl_lengths_local(a, b, k, p, (n - 1) as nat);
        lemma_value_local(a, b, k, p + 3 * (n - 1), 3);
    }
}

proof fn lemma_dynamic_codes_local(a: Seq<u8>, b: Seq<u8>, k: int, p: int)
    requires
        agree(a, b, k),
    ensures
        stream::dynamic_codes(a, p) matches Ok((_, _, q)) ==> q >= p && (q <= 8 * k
            ==> stream::dynamic_codes(b, p) == stream::dynamic_codes(a, p)),
{
    let hlit = bits::value(a, p, 5) + 257;
    let hdist = bits::value(a, p + 5, 5) + 1;
    let hclen = bits::value(a, p + 10, 4) + 4;
    let at = p + 14 + 3 * hclen;
    let clcl = stream::clcl_lengths(a, p + 14, hclen);
    stream::lemma_code_lengths_progress(clcl, a, at, Seq::empty(), hlit + hdist);
    lemma_code_lengths_local(clcl, a, b, k, at, Seq::empty(), hlit + hdist);
    if let Ok((_, _, q)) = stream::dynamic_codes(a, p) {
        if q <= 8 * k {
            lemma_value_local(a, b, k, p, 5);
            lemma_value_local(a, b, k, p + 5, 5);
            lemma_value_local(a, b, k, p + 10, 4);
            lemma_clcl_lengths_local(a, b, k, p + 14, hclen);
        }
    }
}

proof fn lemma_stored_local(a: Seq<u8>, b: Seq<u8>, k: int, p: int, out: Seq<u8>, limit: nat)
    requires
        0 <= p,
        agree(a, b, k),
        stream::stored(a, p, out, limit) matches Ok((_, q)) && q <= 8 * k,
    ensures
        stream::stored(b, p, out, limit) == stream::stored(a, p, out, limit),
{
    let start = stream::byte_at(p);
    assert(a[start] == b[start]);
    assert(a[start + 1] == b[start + 1]);
    assert(a[start + 2] == b[start + 2]);
    assert(a[start + 3] == b[start + 3]);
    let len = a[start] + 256 * a[start + 1];
    assert(a.subrange(start + 4, start + 4 + len) =~= b.subrange(start + 4, start + 4 + len));
}

proof fn lemma_block_local(a: Seq<u8>, b: Seq<u8>, k: int, p: int, out: Seq<u8>, limit: nat)
    requires
        0 <= p,
        agree(a, b, k),
    ensures
        stream::block(a, p, out, limit) matches Ok((_, q)) ==> q <= 8 * k
            ==> stream::block(b, p, out, limit) == stream::block(a, p, out, limit),
{
    reveal(stream::block);
    stream::lemma_block_progress(a, p, out, limit);
    if let Ok((_, q)) = stream::block(a, p, out, limit) {
        if q <= 8 * k {
            let kind = bits::value(a, p, 2);
            if kind == 0 {
                lemma_stored_local(a, b, k, p + 2, out, limit);
                lemma_value_local(a, b, k, p, 2);
            } else if kind == 1 {
                let (ll, dl) = (tables::FIXED_LITLEN_LENGTHS@, tables::FIXED_DIST_LENGTHS@);
                stream::lemma_symbols_progress(ll, dl, a, p + 2, out, limit);
                lemma_symbols_local(ll, dl, a, b, k, p + 2, out, limit);
                lemma_value_local(a, b, k, p, 2);
            } else {
                lemma_dynamic_codes_local(a, b, k, p + 2);
                let (litlen, dist, r) = stream::dynamic_codes(a, p + 2)->Ok_0;
                stream::lemma_symbols_progress(litlen, dist, a, r, out, limit);
                lemma_symbols_local(litlen, dist, a, b, k, r, out, limit);
                lemma_value_local(a, b, k, p, 2);
            }
        }
    }
}

/// Blocks that end in the front of the data are read the same whatever follows it.
pub proof fn lemma_blocks_local(a: Seq<u8>, b: Seq<u8>, k: int, p: int, out: Seq<u8>, limit: nat)
    requires
        agree(a, b, k),
    ensures
        stream::blocks(a, p, out, limit) matches Ok((_, q)) ==> q > p && (q <= 8 * k
            ==> stream::blocks(b, p, out, limit) == stream::blocks(a, p, out, limit)),
    decreases
            (if p < 8 * a.len() {
                8 * a.len() - p
            } else {
                0
            }),
{
    if 0 <= p < 8 * a.len() {
        lemma_block_local(a, b, k, p + 1, out, limit);
        stream::lemma_block_progress(a, p + 1, out, limit);
        if p < 8 * k {
            lemma_bit_local(a, b, k, p);
        }
        if let Ok((grown, q)) = stream::block(a, p + 1, out, limit) {
            if bits::bit(a, p) != 1 {
                lemma_blocks_local(a, b, k, q, grown, limit);
            }
        }
    }
}

/// A DEFLATE stream that takes up all of `data` does not end in any part of it.
proof fn lemma_inflate_short(data: Seq<u8>, k: int, limit: nat, other: nat)
    requires
        stream::inflate(data, limit) matches Ok((_, taken)) && k < taken,
        0 <= k <= data.len(),
    ensures
        stream::inflate(data.take(k), other) is Err,
{
    lemma_blocks_local(data.take(k), data, k, 0, Seq::empty(), other);
    let (out, taken) = stream::inflate(data, limit)->Ok_0;
    if let Ok((_, q)) = stream::blocks(data.take(k), 0, Seq::empty(), other) {
        if stream::byte_at(q) <= k {
            if limit <= other {
                stream::lemma_blocks_limit(data, 0, Seq::empty(), limit, other);
            } else {
                stream::lemma_blocks_limit(data, 0, Seq::empty(), other, limit);
            }
        }
    }
}

// ---------------------------------------------------------------------------------------
// Streams
// ---------------------------------------------------------------------------------------

/// A zlib stream that was cut short never expands, wherever it was cut, under whatever limit,
/// with or without a look at the checksum.
pub proof fn law_truncated_stream_is_refused(
    pieces: Seq<Seq<u8>>,
    n: int,
    limit: nat,
    verify: bool,
)
    requires
        pieces.len() > 0,
        0 <= n < encoding::zlib_of_pieces(pieces).len(),
    ensures
        stream::zlib(encoding::zlib_of_pieces(pieces).take(n), limit, verify) is Err,
{
    let z = encoding::zlib_of_pieces(pieces);
    let short = z.take(n);
    let whole = encoding::joined(pieces, pieces.len());
    roundtrip::law_pieces_read_back(pieces, whole.len(), verify);
    if n >= 2 {
        let body = z.skip(2);
        let taken = z.len() - 6;
        assert(short.skip(2) =~= body.take(n - 2));
        if n - 2 < taken {
            lemma_inflate_short(body, n - 2, whole.len(), limit);
        } else {
            lemma_blocks_local(body.take(n - 2), body, n - 2, 0, Seq::empty(), limit);
            if let Ok((_, q)) = stream::blocks(body.take(n - 2), 0, Seq::empty(), limit) {
                if stream::byte_at(q) <= n - 2 {
                    if whole.len() <= limit {
                        stream::lemma_blocks_limit(body, 0, Seq::empty(), whole.len(), limit);
                    } else {
                        stream::lemma_blocks_limit(body, 0, Seq::empty(), limit, whole.len());
                    }
                }
            }
        }
    }
}

// ---------------------------------------------------------------------------------------
// Files
// ---------------------------------------------------------------------------------------

/// Bytes that stand in front of a cut still stand there.
proof fn lemma_stands_short(png: Seq<u8>, n: int, p: int, bytes: Seq<u8>)
    requires
        laws::stands(png, p, bytes),
        p + bytes.len() <= n <= png.len(),
    ensures
        laws::stands(png.take(n), p, bytes),
{
    assert(png.take(n).subrange(p, p + bytes.len()) =~= png.subrange(p, p + bytes.len()));
}

/// A chunk that was cut is not found. A cut in front of it looks like the end of the file.
proof fn lemma_cut_chunk(
    png: Seq<u8>,
    n: int,
    p: int,
    kind: [u8; 4],
    data: Seq<u8>,
    verify: bool,
)
    requires
        laws::stands(png, p, writing::chunk_bytes(kind, data)),
        data.len() <= common::MAX_CHUNK_BYTES,
        p <= n < p + writing::chunk_bytes(kind, data).len(),
    ensures
        n == p ==> file::next_chunk(png.take(n), p, verify) == Ok::<Option<Found>, Error>(None),
        n > p ==> file::next_chunk(png.take(n), p, verify) == Err::<Option<Found>, Error>(
            Error::TruncatedChunk,
        ),
{
    let whole = writing::chunk_bytes(kind, data);
    let length = encoding::be_bytes(data.len());
    let short = png.take(n);
    laws::lemma_chunk_found(png, p, kind, data, verify);
    if n >= p + 8 {
        let rest = kind@ + data + encoding::be_bytes(crc32::checksum(kind@ + data) as nat);
        assert(whole =~= length + rest);
        laws::lemma_stands_split(png, p, length, rest);
        lemma_stands_short(png, n, p, length);
        roundtrip::lemma_be_bytes(data.len(), short, p);
    }
}

/// What is read of a file that was cut among its metadata: nothing of the image data.
proof fn lemma_cut_metadata(
    png: Seq<u8>,
    n: int,
    p: int,
    chunks: Seq<ChunkView>,
    verify: bool,
    keep: Keep,
    contents: Contents,
)
    requires
        laws::stands(png, p, writing::chunks_bytes(chunks)),
        laws::all_writable(chunks),
        p <= n < p + writing::chunks_bytes(chunks).len(),
    ensures
        file::contents_from(png.take(n), p, verify, keep, contents) matches Ok(read) ==> read.idat
            == contents.idat,
    decreases chunks.len(),
{
    if chunks.len() > 0 {
        let front = chunks.drop_last();
        let last = chunks.last();
        let a = writing::chunks_bytes(front);
        let b = writing::chunk_bytes(last.kind, last.data);
        assert forall|i: int| 0 <= i < front.len() implies (#[trigger] front[i]).checked() is Ok by {
            assert(front[i] == chunks[i]);
        }
        assert(chunks[chunks.len() - 1].checked() is Ok);
        laws::lemma_stands_split(png, p, a, b);
        if n < p + a.len() {
            lemma_cut_metadata(png, n, p, front, verify, keep, contents);
        } else {
            lemma_stands_short(png, n, p, a);
            laws::lemma_metadata_read(png.take(n), p, front, verify, keep, contents);
            lemma_cut_chunk(png, n, p + a.len(), last.kind, last.data, verify);
        }
    }
}

/// What is read of a file that was cut among its full image data chunks: some of the data.
proof fn lemma_cut_full_chunks(
    png: Seq<u8>,
    n: int,
    p: int,
    packed: Seq<u8>,
    m: int,
    verify: bool,
    keep: Keep,
    contents: Contents,
)
    requires
        0 <= m,
        m * IDAT_CHUNK_BYTES <= packed.len(),
        laws::stands(png, p, writing::full_chunks(packed, m)),
        p <= n < p + writing::full_chunks(packed, m).len(),
        contents.idat is None,
    ensures
        file::contents_from(png.take(n), p, verify, keep, contents) matches Ok(read) ==> (
        read.idat matches Some(part) ==> part.len() < packed.len() && part == packed.take(
            part.len() as int,
        )),
    decreases m,
{
    if m > 0 {
        let a = writing::full_chunks(packed, m - 1);
        let data = packed.subrange((m - 1) * IDAT_CHUNK_BYTES, m * IDAT_CHUNK_BYTES);
        laws::lemma_stands_split(png, p, a, writing::chunk_bytes(common::IDAT, data));
        if n < p + a.len() {
            lemma_cut_full_chunks(png, n, p, packed, m - 1, verify, keep, contents);
        } else {
            lemma_stands_short(png, n, p, a);
            laws::lemma_full_chunks_read(png.take(n), p, packed, m - 1, verify, keep, contents);
            lemma_cut_chunk(png, n, p + a.len(), common::IDAT, data, verify);
            let part = packed.take((m - 1) * IDAT_CHUNK_BYTES);
            assert(part.len() == (m - 1) * IDAT_CHUNK_BYTES);
        }
    }
}

/// What is read of a file that was cut among its image data: some of the data.
proof fn lemma_cut_idat(
    png: Seq<u8>,
    n: int,
    p: int,
    packed: Seq<u8>,
    verify: bool,
    keep: Keep,
    contents: Contents,
)
    requires
        laws::stands(png, p, writing::idat_bytes(packed)),
        p <= n < p + writing::idat_bytes(packed).len(),
        contents.idat is None,
    ensures
        file::contents_from(png.take(n), p, verify, keep, contents) matches Ok(read) ==> (
        read.idat matches Some(part) ==> part.len() < packed.len() && part == packed.take(
            part.len() as int,
        )),
{
    let m = packed.len() as int / IDAT_CHUNK_BYTES as int;
    let a = writing::full_chunks(packed, m);
    let rest = packed.skip(m * IDAT_CHUNK_BYTES);
    if rest.len() == 0 {
        lemma_cut_full_chunks(png, n, p, packed, m, verify, keep, contents);
    } else {
        laws::lemma_stands_split(png, p, a, writing::chunk_bytes(common::IDAT, rest));
        if n < p + a.len() {
            lemma_cut_full_chunks(png, n, p, packed, m, verify, keep, contents);
        } else {
            lemma_stands_short(png, n, p, a);
            laws::lemma_full_chunks_read(png.take(n), p, packed, m, verify, keep, contents);
            lemma_cut_chunk(png, n, p + a.len(), common::IDAT, rest, verify);
            let part = packed.take(m * IDAT_CHUNK_BYTES);
            assert(part.len() == m * IDAT_CHUNK_BYTES);
        }
    }
}

/// What is read of a file that was cut in its palette or its transparency.
proof fn lemma_cut_optional(
    png: Seq<u8>,
    n: int,
    p: int,
    kind: [u8; 4],
    data: Option<Seq<u8>>,
    verify: bool,
    keep: Keep,
    contents: Contents,
)
    requires
        laws::stands(png, p, writing::optional_chunk(kind, data)),
        data matches Some(bytes) ==> bytes.len() <= common::MAX_CHUNK_BYTES,
        p <= n < p + writing::optional_chunk(kind, data).len(),
    ensures
        file::contents_from(png.take(n), p, verify, keep, contents) matches Ok(read) ==> read.idat
            == contents.idat,
{
    if let Some(bytes) = data {
        lemma_cut_chunk(png, n, p, kind, bytes, verify);
    }
}

/// Whether what was read holds no more than a part of the image data.
spec fn partial(read: Result<Contents, Error>, packed: Seq<u8>) -> bool {
    read matches Ok(contents) ==> (contents.idat matches Some(part) ==> part.len() < packed.len()
        && part == packed.take(part.len() as int))
}

/// What is read of a file that was cut behind its palette and transparency.
proof fn lemma_cut_tail(
    png: Seq<u8>,
    n: int,
    p: int,
    back: Seq<ChunkView>,
    packed: Seq<u8>,
    verify: bool,
    keep: Keep,
    contents: Contents,
)
    requires
        laws::all_writable(back),
        packed.len() > 0,
        contents.idat is None,
        ({
            let q = p + writing::chunks_bytes(back).len();
            let r = q + writing::idat_bytes(packed).len();
            &&& laws::stands(png, p, writing::chunks_bytes(back))
            &&& laws::stands(png, q, writing::idat_bytes(packed))
            &&& laws::stands(png, r, writing::chunk_bytes(common::IEND, Seq::empty()))
            &&& p <= n < r + 12
            &&& png.len() == r + 12
        }),
    ensures
        partial(file::contents_from(png.take(n), p, verify, keep, contents), packed),
{
    let short = png.take(n);
    let q = p + writing::chunks_bytes(back).len();
    let r = q + writing::idat_bytes(packed).len();
    if n < q {
        lemma_cut_metadata(png, n, p, back, verify, keep, contents);
    } else {
        lemma_stands_short(png, n, p, writing::chunks_bytes(back));
        laws::lemma_metadata_read(short, p, back, verify, keep, contents);
        let grown = Contents {
            info: InfoView {
                metadata: contents.info.metadata + laws::kept(back, keep),
                ..contents.info
            },
            ..contents
        };
        if n < r {
            lemma_cut_idat(png, n, q, packed, verify, keep, grown);
        } else {
            lemma_stands_short(png, n, q, writing::idat_bytes(packed));
            laws::lemma_idat_read(short, q, packed, verify, keep, grown);
            laws::lemma_chunk_found(png, r, common::IEND, Seq::empty(), verify);
            lemma_cut_chunk(png, n, r, common::IEND, Seq::empty(), verify);
        }
    }
}

/// What is read of a file that was cut behind its header: no more than a part of its image
/// data.
#[verifier::rlimit(40)]
proof fn lemma_cut_contents(
    info: InfoView,
    data: Seq<u8>,
    strategy: FilterStrategy,
    n: int,
    verify: bool,
    keep: Keep,
)
    requires
        writing::writable(info, data) is Ok,
        33 <= n < writing::file_bytes(info, data, strategy).len(),
    ensures
        partial(
            file::contents_from(
                writing::file_bytes(info, data, strategy).take(n),
                33,
                verify,
                keep,
                Contents { info: laws::bare(info), idat: None },
            ),
            encoding::zlib_of_pieces(writing::bands(info, data, strategy)),
        ),
{
    let png = writing::file_bytes(info, data, strategy);
    let short = png.take(n);
    let packed = encoding::zlib_of_pieces(writing::bands(info, data, strategy));
    let front = writing::side(info.metadata, true);
    let back = writing::side(info.metadata, false);
    let c0 = Contents { info: laws::bare(info), idat: None };
    laws::lemma_layout(info, data, strategy);
    let (p1, p2, p3, p4, p5) = laws::places(info, packed);
    laws::lemma_all_writable(info.metadata);
    laws::lemma_side_writable(info.metadata, true);
    laws::lemma_side_writable(info.metadata, false);
    if n < p1 {
        lemma_cut_metadata(png, n, 33, front, verify, keep, c0);
    } else {
        lemma_stands_short(png, n, 33, writing::chunks_bytes(front));
        laws::lemma_metadata_read(short, 33, front, verify, keep, c0);
        let i1 = InfoView {
            metadata: c0.info.metadata + laws::kept(front, keep),
            ..laws::bare(info)
        };
        let c1 = Contents { info: i1, idat: None };
        if n < p2 {
            lemma_cut_optional(png, n, p1, common::PLTE, info.palette, verify, keep, c1);
        } else {
            lemma_stands_short(png, n, p1, writing::optional_chunk(common::PLTE, info.palette));
            laws::lemma_optional_read(short, p1, true, info.palette, verify, keep, c1);
            let c2 = Contents { info: InfoView { palette: info.palette, ..i1 }, idat: None };
            if n < p3 {
                lemma_cut_optional(png, n, p2, common::TRNS, info.transparency, verify, keep, c2);
            } else {
                lemma_stands_short(
                    png,
                    n,
                    p2,
                    writing::optional_chunk(common::TRNS, info.transparency),
                );
                laws::lemma_optional_read(short, p2, false, info.transparency, verify, keep, c2);
                let c3 = Contents {
                    info: InfoView { transparency: info.transparency, ..c2.info },
                    idat: None,
                };
                lemma_cut_tail(png, n, p3, back, packed, verify, keep, c3);
            }
        }
    }
}

/// A file that was cut inside its signature or header does not open. One that was cut behind
/// them opens as the whole file does.
proof fn lemma_cut_header(png: Seq<u8>, payload: Seq<u8>, info: InfoView, n: int, verify: bool)
    requires
        file::signed(png),
        laws::stands(png, 8, writing::chunk_bytes(common::IHDR, payload)),
        payload.len() == 13,
        file::header(payload) == Ok::<InfoView, Error>(info),
        0 <= n <= png.len(),
    ensures
        n < 33 ==> file::opened(png.take(n), verify) is Err,
        n >= 33 ==> file::opened(png.take(n), verify) == Ok::<(InfoView, int), Error>((info, 33)),
{
    let short = png.take(n);
    laws::lemma_chunk_found(png, 8, common::IHDR, payload, verify);
    if n >= 33 {
        lemma_stands_short(png, n, 8, writing::chunk_bytes(common::IHDR, payload));
        laws::lemma_chunk_found(short, 8, common::IHDR, payload, verify);
        assert(short.take(8) =~= png.take(8));
    } else if n >= 8 {
        lemma_cut_chunk(png, n, 8, common::IHDR, payload, verify);
    }
}

/// A part of the image data does not expand.
proof fn lemma_part_refused(bands: Seq<Seq<u8>>, part: Seq<u8>, view: InfoView, checks: Checks)
    requires
        bands.len() > 0,
        part.len() < encoding::zlib_of_pieces(bands).len(),
        part == encoding::zlib_of_pieces(bands).take(part.len() as int),
    ensures
        file::expanded(view, part, checks) is Err,
{
    law_truncated_stream_is_refused(
        bands,
        part.len() as int,
        view.decompressed_size() as nat,
        checks is Full,
    );
}

/// A file that was cut short never decodes, wherever it was cut and however the decoder is
/// set.
#[verifier::rlimit(40)]
pub proof fn law_truncated_file_is_refused(
    info: InfoView,
    data: Seq<u8>,
    strategy: FilterStrategy,
    n: int,
    settings: Settings,
)
    requires
        writing::writable(info, data) is Ok,
        0 <= n < writing::file_bytes(info, data, strategy).len(),
    ensures
        file::decoded(writing::file_bytes(info, data, strategy).take(n), settings) is Err,
{
    let short = writing::file_bytes(info, data, strategy).take(n);
    let verify = file::verifies(settings.checks);
    laws::lemma_header_read(info);
    laws::lemma_opening(info, data, strategy);
    lemma_cut_header(
        writing::file_bytes(info, data, strategy),
        writing::ihdr_payload(info),
        laws::bare(info),
        n,
        verify,
    );
    if n >= 33 {
        let bands = writing::bands(info, data, strategy);
        lemma_cut_contents(info, data, strategy, n, verify, settings.keep);
        encoder::lemma_first_band(info);
        if let Ok((view, part)) = file::parsed(short, settings) {
            lemma_part_refused(bands, part, view, settings.checks);
        }
    }
}

} // verus!
