//! What a DEFLATE stream in its zlib framing stands for.
//!
//! Decoding is a function from the compressed bytes and the most bytes they may expand to,
//! to the expanded bytes or the first error met in stream order. Positions count bits from
//! the start of the DEFLATE data.

use vstd::prelude::*;
use crate::adler32;
use crate::bits;
use crate::code;
use crate::inflate::InflateError;
use crate::tables;

verus! {

/// `length` bytes copied from `distance` bytes back, one at a time.
pub open spec fn copy_match(out: Seq<u8>, distance: int, length: nat) -> Seq<u8>
    decreases length,
{
    if length == 0 {
        out
    } else {
        let before = copy_match(out, distance, (length - 1) as nat);
        before.push(before[before.len() - distance])
    }
}

/// The symbols of a compressed block from position `p` on, appended to `out`: the output
/// after the end-of-block symbol and the position behind it.
pub open spec fn symbols(
    litlen: Seq<u8>,
    dist: Seq<u8>,
    data: Seq<u8>,
    p: int,
    out: Seq<u8>,
    limit: nat,
) -> Result<(Seq<u8>, int), InflateError>
    decreases limit - out.len(),
{
    match code::decode(litlen, data, p) {
        None => Err(InflateError::InvalidLiteralLengthCode),
        Some(symbol) => {
            let q = p + litlen[symbol];
            if symbol < 256 {
                if out.len() >= limit {
                    Err(InflateError::OutputOverflow)
                } else {
                    symbols(litlen, dist, data, q, out.push(symbol as u8), limit)
                }
            } else if symbol == 256 {
                Ok((out, q))
            } else if symbol > 285 {
                Err(InflateError::InvalidLiteralLengthCode)
            } else {
                match back_reference(dist, data, q, symbol - 257) {
                    Err(error) => Err(error),
                    Ok((length, distance, r)) => if distance > out.len() {
                        Err(InflateError::DistanceTooFarBack)
                    } else if out.len() + length > limit {
                        Err(InflateError::OutputOverflow)
                    } else {
                        proof {
                            tables::lemma_len_range();
                            lemma_copy_match_len(out, distance, length);
                        }
                        symbols(litlen, dist, data, r, copy_match(out, distance, length), limit)
                    },
                }
            }
        },
    }
}

/// The rest of a match whose length symbol is the one numbered `i`: its length, its distance
/// and the position behind it.
pub open spec fn back_reference(dist: Seq<u8>, data: Seq<u8>, p: int, i: int) -> Result<
    (nat, int, int),
    InflateError,
> {
    let extra = tables::LEN_EXTRA@[i] as nat;
    let length = (tables::LEN_BASE@[i] + bits::value(data, p, extra)) as nat;
    let q = p + extra;
    match code::decode(dist, data, q) {
        None => Err(InflateError::InvalidDistanceCode),
        Some(symbol) => if symbol >= 30 {
            Err(InflateError::InvalidDistanceCode)
        } else {
            let r = q + dist[symbol];
            let far = tables::DIST_EXTRA@[symbol] as nat;
            Ok((length, tables::DIST_BASE@[symbol] + bits::value(data, r, far), r + far))
        },
    }
}

pub proof fn lemma_copy_match_len(out: Seq<u8>, distance: int, length: nat)
    ensures
        copy_match(out, distance, length).len() == out.len() + length,
    decreases length,
{
    if length > 0 {
        lemma_copy_match_len(out, distance, (length - 1) as nat);
    }
}

/// `n` copies of `length` appended to `lengths`.
pub open spec fn repeated(lengths: Seq<u8>, length: u8, n: nat) -> Seq<u8> {
    lengths + Seq::new(n, |i: int| length)
}

/// Code lengths from position `p` on, run-length coded with the code `clcl`, until there are
/// `total` of them: the lengths and the position behind them.
pub open spec fn code_lengths(
    clcl: Seq<u8>,
    data: Seq<u8>,
    p: int,
    lengths: Seq<u8>,
    total: nat,
) -> Result<(Seq<u8>, int), InflateError>
    decreases total - lengths.len(),
{
    if lengths.len() >= total {
        Ok((lengths, p))
    } else {
        match code::decode(clcl, data, p) {
            None => Err(InflateError::BadCodeLengthTree),
            Some(symbol) => {
                let q = p + clcl[symbol];
                if symbol < 16 {
                    code_lengths(clcl, data, q, lengths.push(symbol as u8), total)
                } else if symbol == 16 && lengths.len() == 0 {
                    Err(InflateError::InvalidCodeLengthRepeat)
                } else {
                    let (length, least, extra) = repeat_rule(symbol, lengths);
                    let n = least + bits::value(data, q, extra);
                    if lengths.len() + n > total {
                        Err(InflateError::InvalidCodeLengthRepeat)
                    } else {
                        code_lengths(clcl, data, q + extra, repeated(lengths, length, n), total)
                    }
                }
            },
        }
    }
}

/// What a repeat symbol repeats, how often at least, and how many extra bits say how much
/// more often.
pub open spec fn repeat_rule(symbol: int, lengths: Seq<u8>) -> (u8, nat, nat) {
    if symbol == 16 {
        (lengths.last(), 3, 2)
    } else if symbol == 17 {
        (0, 3, 3)
    } else {
        (0, 11, 7)
    }
}

/// The code length code: `n` lengths of three bits each, in the order of the header.
pub open spec fn clcl_lengths(data: Seq<u8>, p: int, n: nat) -> Seq<u8>
    decreases n,
{
    if n == 0 {
        Seq::new(19, |i: int| 0u8)
    } else {
        let k = n - 1;
        clcl_lengths(data, p, k as nat).update(
            tables::CLCL_ORDER@[k] as int,
            bits::value(data, p + 3 * k, 3) as u8,
        )
    }
}

/// Whether a distance alphabet may be used: a complete code, a single codeword, or none at
/// all.
pub open spec fn usable_distances(lengths: Seq<u8>) -> bool {
    code::complete(lengths) || code::degenerate(lengths)
}

/// The codes that a dynamic block's header describes, and the position behind it.
pub open spec fn dynamic_codes(data: Seq<u8>, p: int) -> Result<
    (Seq<u8>, Seq<u8>, int),
    InflateError,
> {
    let hlit = bits::value(data, p, 5) + 257;
    let hdist = bits::value(data, p + 5, 5) + 1;
    let hclen = bits::value(data, p + 10, 4) + 4;
    if hlit > 286 {
        Err(InflateError::InvalidHlit)
    } else if hdist > 30 {
        Err(InflateError::InvalidHdist)
    } else {
        let clcl = clcl_lengths(data, p + 14, hclen);
        if !code::complete(clcl) {
            Err(InflateError::BadCodeLengthTree)
        } else {
            match code_lengths(clcl, data, p + 14 + 3 * hclen, Seq::empty(), hlit + hdist) {
                Err(error) => Err(error),
                Ok((lengths, q)) => split_codes(lengths, hlit, q),
            }
        }
    }
}

/// The literal/length and the distance code out of the lengths of both. The distance
/// alphabet has 32 places, of which the header names some.
pub open spec fn split_codes(lengths: Seq<u8>, hlit: nat, q: int) -> Result<
    (Seq<u8>, Seq<u8>, int),
    InflateError,
> {
    let litlen = lengths.take(hlit as int);
    let dist = lengths.skip(hlit as int) + Seq::new((32 - (lengths.len() - hlit)) as nat, |i: int| 0u8);
    if !code::complete(litlen) {
        Err(InflateError::BadLiteralLengthTree)
    } else if !usable_distances(dist) {
        Err(InflateError::BadDistanceTree)
    } else {
        Ok((litlen, dist, q))
    }
}

/// The byte position at or after bit position `p`.
pub open spec fn byte_at(p: int) -> int {
    (p + 7) / 8
}

/// A stored block whose header bits end at position `p`.
pub open spec fn stored(data: Seq<u8>, p: int, out: Seq<u8>, limit: nat) -> Result<
    (Seq<u8>, int),
    InflateError,
> {
    let start = byte_at(p);
    if start + 4 > data.len() {
        Err(InflateError::UnexpectedEof)
    } else {
        let len = data[start] + 256 * data[start + 1];
        let complement = data[start + 2] + 256 * data[start + 3];
        if len + complement != 65535 {
            Err(InflateError::InvalidStoredLength)
        } else if start + 4 + len > data.len() {
            Err(InflateError::UnexpectedEof)
        } else if out.len() + len > limit {
            Err(InflateError::OutputOverflow)
        } else {
            Ok((out + data.subrange(start + 4, start + 4 + len), 8 * (start + 4 + len)))
        }
    }
}

/// One block from its type bits on, which stand at position `p`.
#[verifier::opaque]
pub open spec fn block(data: Seq<u8>, p: int, out: Seq<u8>, limit: nat) -> Result<
    (Seq<u8>, int),
    InflateError,
> {
    let kind = bits::value(data, p, 2);
    if kind == 0 {
        stored(data, p + 2, out, limit)
    } else if kind == 1 {
        symbols(
            tables::FIXED_LITLEN_LENGTHS@,
            tables::FIXED_DIST_LENGTHS@,
            data,
            p + 2,
            out,
            limit,
        )
    } else if kind == 2 {
        match dynamic_codes(data, p + 2) {
            Err(error) => Err(error),
            Ok((litlen, dist, q)) => symbols(litlen, dist, data, q, out, limit),
        }
    } else {
        Err(InflateError::InvalidBlockType)
    }
}

/// The blocks from position `p` on, up to and with the one marked as the last.
pub open spec fn blocks(data: Seq<u8>, p: int, out: Seq<u8>, limit: nat) -> Result<
    (Seq<u8>, int),
    InflateError,
>
    decreases
            (if p < 8 * data.len() {
                8 * data.len() - p
            } else {
                0
            }),
{
    if p < 0 || p >= 8 * data.len() {
        Err(InflateError::UnexpectedEof)
    } else {
        match block(data, p + 1, out, limit) {
            Err(error) => Err(error),
            Ok((grown, q)) => {
                proof {
                    lemma_block_progress(data, p + 1, out, limit);
                }
                if bits::bit(data, p) == 1 {
                    Ok((grown, q))
                } else {
                    blocks(data, q, grown, limit)
                }
            },
        }
    }
}

/// A whole DEFLATE stream: the expanded bytes and how many bytes of `data` it takes up.
pub open spec fn inflate(data: Seq<u8>, limit: nat) -> Result<(Seq<u8>, int), InflateError> {
    match blocks(data, 0, Seq::empty(), limit) {
        Err(error) => Err(error),
        Ok((out, q)) => if byte_at(q) > data.len() {
            Err(InflateError::UnexpectedEof)
        } else {
            Ok((out, byte_at(q)))
        },
    }
}

/// Whether two bytes are a zlib header that announces DEFLATE with a window of at most
/// 32 KiB.
pub open spec fn zlib_header(cmf: u8, flg: u8) -> bool {
    cmf % 16 == 8 && cmf / 16 <= 7 && (256 * cmf + flg) % 31 == 0
}

/// Four bytes as a number, most significant byte first.
pub open spec fn be32(data: Seq<u8>, at: int) -> nat {
    (16777216 * data[at] + 65536 * data[at + 1] + 256 * data[at + 2] + data[at + 3]) as nat
}

/// What a zlib stream expands to. With `verify`, the checksum behind the data has to be that
/// of the expanded bytes.
pub open spec fn zlib(data: Seq<u8>, limit: nat, verify: bool) -> Result<Seq<u8>, InflateError> {
    if data.len() < 2 {
        Err(InflateError::UnexpectedEof)
    } else if !zlib_header(data[0], data[1]) {
        Err(InflateError::BadZlibHeader)
    } else if (data[1] / 32) % 2 != 0 {
        Err(InflateError::PresetDictionary)
    } else {
        match inflate(data.skip(2), limit) {
            Err(error) => Err(error),
            Ok((out, taken)) => if 2 + taken + 4 > data.len() {
                Err(InflateError::UnexpectedEof)
            } else if verify && be32(data, 2 + taken) != adler32::checksum(out) {
                Err(InflateError::WrongChecksum)
            } else {
                Ok(out)
            },
        }
    }
}

/// What a zlib stream expands to that has to fill `expected` bytes exactly.
pub open spec fn zlib_exact(data: Seq<u8>, expected: nat, verify: bool) -> Result<
    Seq<u8>,
    InflateError,
> {
    match zlib(data, expected, verify) {
        Err(error) => Err(error),
        Ok(out) => if out.len() != expected {
            Err(InflateError::OutputUnderflow)
        } else {
            Ok(out)
        },
    }
}

/// Every symbol takes at least one bit.
pub proof fn lemma_symbols_progress(
    litlen: Seq<u8>,
    dist: Seq<u8>,
    data: Seq<u8>,
    p: int,
    out: Seq<u8>,
    limit: nat,
)
    ensures
        symbols(litlen, dist, data, p, out, limit) matches Ok((grown, q)) ==> q > p && grown.len()
            >= out.len() && (out.len() <= limit ==> grown.len() <= limit),
    decreases limit - out.len(),
{
    if let Some(symbol) = code::decode(litlen, data, p) {
        code::lemma_decode_some(litlen, data, p);
        let q = p + litlen[symbol];
        if symbol < 256 {
            if out.len() < limit {
                lemma_symbols_progress(litlen, dist, data, q, out.push(symbol as u8), limit);
            }
        } else if 256 < symbol <= 285 {
            if let Ok((length, distance, r)) = back_reference(dist, data, q, symbol - 257) {
                lemma_copy_match_len(out, distance, length);
                tables::lemma_len_range();
                if distance <= out.len() && out.len() + length <= limit {
                    lemma_symbols_progress(
                        litlen,
                        dist,
                        data,
                        r,
                        copy_match(out, distance, length),
                        limit,
                    );
                }
            }
        }
    }
}

/// Code lengths take no negative number of bits.
pub proof fn lemma_code_lengths_progress(
    clcl: Seq<u8>,
    data: Seq<u8>,
    p: int,
    lengths: Seq<u8>,
    total: nat,
)
    ensures
        code_lengths(clcl, data, p, lengths, total) matches Ok((_, q)) ==> q >= p,
    decreases total - lengths.len(),
{
    if lengths.len() < total {
        if let Some(symbol) = code::decode(clcl, data, p) {
            code::lemma_decode_some(clcl, data, p);
            let q = p + clcl[symbol];
            if symbol < 16 {
                lemma_code_lengths_progress(clcl, data, q, lengths.push(symbol as u8), total);
            } else if !(symbol == 16 && lengths.len() == 0) {
                let (length, least, extra) = repeat_rule(symbol, lengths);
                let n = least + bits::value(data, q, extra);
                if lengths.len() + n <= total {
                    lemma_code_lengths_progress(
                        clcl,
                        data,
                        q + extra,
                        repeated(lengths, length, n),
                        total,
                    );
                }
            }
        }
    }
}

/// A block ends behind where it began.
pub proof fn lemma_block_progress(data: Seq<u8>, p: int, out: Seq<u8>, limit: nat)
    requires
        p >= 0,
    ensures
        block(data, p, out, limit) matches Ok((grown, q)) ==> q > p && grown.len() >= out.len() && (
        out.len() <= limit ==> grown.len() <= limit),
{
    reveal(block);
    let kind = bits::value(data, p, 2);
    if kind == 1 {
        lemma_symbols_progress(
            tables::FIXED_LITLEN_LENGTHS@,
            tables::FIXED_DIST_LENGTHS@,
            data,
            p + 2,
            out,
            limit,
        );
    } else if kind == 2 {
        if let Ok((litlen, dist, q)) = dynamic_codes(data, p + 2) {
            let hclen = bits::value(data, p + 2 + 10, 4) + 4;
            let hlit = bits::value(data, p + 2, 5) + 257;
            let hdist = bits::value(data, p + 2 + 5, 5) + 1;
            let clcl = clcl_lengths(data, p + 2 + 14, hclen);
            lemma_code_lengths_progress(
                clcl,
                data,
                p + 2 + 14 + 3 * hclen,
                Seq::empty(),
                hlit + hdist,
            );
            lemma_symbols_progress(litlen, dist, data, q, out, limit);
        }
    }
}

/// Past the end of the data there is no block.
pub proof fn lemma_block_past(data: Seq<u8>, p: int, out: Seq<u8>, limit: nat)
    requires
        p >= 8 * data.len(),
    ensures
        block(data, p, out, limit) == Err::<(Seq<u8>, int), InflateError>(
            InflateError::UnexpectedEof,
        ),
{
    reveal(block);
    bits::lemma_value_past(data, p, 2);
}

// ---------------------------------------------------------------------------------------
// The limit
// ---------------------------------------------------------------------------------------

/// A block that stays within a limit reads the same under any larger one.
pub proof fn lemma_symbols_limit(
    litlen: Seq<u8>,
    dist: Seq<u8>,
    data: Seq<u8>,
    p: int,
    out: Seq<u8>,
    small: nat,
    large: nat,
)
    requires
        small <= large,
        symbols(litlen, dist, data, p, out, small) != Err::<(Seq<u8>, int), InflateError>(
            InflateError::OutputOverflow,
        ),
    ensures
        symbols(litlen, dist, data, p, out, large) == symbols(litlen, dist, data, p, out, small),
    decreases small - out.len(),
{
    if let Some(symbol) = code::decode(litlen, data, p) {
        let q = p + litlen[symbol];
        if symbol < 256 {
            if out.len() < small {
                lemma_symbols_limit(litlen, dist, data, q, out.push(symbol as u8), small, large);
            }
        } else if 256 < symbol <= 285 {
            if let Ok((length, distance, r)) = back_reference(dist, data, q, symbol - 257) {
                lemma_copy_match_len(out, distance, length);
                tables::lemma_len_range();
                if distance <= out.len() && out.len() + length <= small {
                    lemma_symbols_limit(
                        litlen,
                        dist,
                        data,
                        r,
                        copy_match(out, distance, length),
                        small,
                        large,
                    );
                }
            }
        }
    }
}

pub proof fn lemma_block_limit(data: Seq<u8>, p: int, out: Seq<u8>, small: nat, large: nat)
    requires
        small <= large,
        block(data, p, out, small) != Err::<(Seq<u8>, int), InflateError>(
            InflateError::OutputOverflow,
        ),
    ensures
        block(data, p, out, large) == block(data, p, out, small),
{
    reveal(block);
    let kind = bits::value(data, p, 2);
    if kind == 1 {
        lemma_symbols_limit(
            tables::FIXED_LITLEN_LENGTHS@,
            tables::FIXED_DIST_LENGTHS@,
            data,
            p + 2,
            out,
            small,
            large,
        );
    } else if kind == 2 {
        if let Ok((litlen, dist, q)) = dynamic_codes(data, p + 2) {
            lemma_symbols_limit(litlen, dist, data, q, out, small, large);
        }
    }
}

pub proof fn lemma_blocks_limit(data: Seq<u8>, p: int, out: Seq<u8>, small: nat, large: nat)
    requires
        small <= large,
        blocks(data, p, out, small) != Err::<(Seq<u8>, int), InflateError>(
            InflateError::OutputOverflow,
        ),
    ensures
        blocks(data, p, out, large) == blocks(data, p, out, small),
    decreases
            (if p < 8 * data.len() {
                8 * data.len() - p
            } else {
                0
            }),
{
    if 0 <= p < 8 * data.len() {
        lemma_block_limit(data, p + 1, out, small, large);
        lemma_block_progress(data, p + 1, out, small);
        if let Ok((grown, q)) = block(data, p + 1, out, small) {
            if bits::bit(data, p) != 1 {
                lemma_blocks_limit(data, q, grown, small, large);
            }
        }
    }
}

/// A stream that does not expand past a limit expands to the same bytes, or fails the same
/// way, under any larger one.
pub proof fn law_larger_limit(data: Seq<u8>, small: nat, large: nat, verify: bool)
    requires
        small <= large,
        zlib(data, small, verify) != Err::<Seq<u8>, InflateError>(InflateError::OutputOverflow),
    ensures
        zlib(data, large, verify) == zlib(data, small, verify),
{
    if data.len() >= 2 {
        let rest = data.skip(2);
        if blocks(rest, 0, Seq::empty(), small) != Err::<(Seq<u8>, int), InflateError>(
            InflateError::OutputOverflow,
        ) {
            lemma_blocks_limit(rest, 0, Seq::empty(), small, large);
        }
    }
}

/// What a stream expands to is within the limit.
pub proof fn lemma_blocks_within(data: Seq<u8>, p: int, out: Seq<u8>, limit: nat)
    requires
        out.len() <= limit,
    ensures
        blocks(data, p, out, limit) matches Ok((grown, _)) ==> grown.len() <= limit,
    decreases
            (if p < 8 * data.len() {
                8 * data.len() - p
            } else {
                0
            }),
{
    if 0 <= p < 8 * data.len() {
        lemma_block_progress(data, p + 1, out, limit);
        if let Ok((grown, q)) = block(data, p + 1, out, limit) {
            if bits::bit(data, p) != 1 {
                lemma_blocks_within(data, q, grown, limit);
            }
        }
    }
}

/// A successful expansion never exceeds the limit.
pub proof fn law_within_limit(data: Seq<u8>, limit: nat, verify: bool)
    ensures
        zlib(data, limit, verify) matches Ok(out) ==> out.len() <= limit,
{
    lemma_blocks_within(data.skip(2), 0, Seq::empty(), limit);
}

} // verus!
