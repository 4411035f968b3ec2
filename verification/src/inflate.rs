//! DEFLATE decompression, with the zlib framing that PNG's `IDAT`
//! stream uses.
//!
//! The decompressor is deliberately *not* a resumable state machine. PNG tells us the exact
//! size of the decompressed data up front, so the whole stream can be decoded in one call
//! against one output buffer.
//!
//! A caller who does not know the size in advance is served by
//! [`decompress_zlib_to_vec`], which pays for that choice by decoding again into a larger
//! buffer rather than resuming into one. The match window *is* the output buffer, so there
//! is no smaller piece of state that could be carried across a reallocation.

use vstd::prelude::*;
use vstd::arithmetic::power2::*;
use crate::adler32::Adler32;
use crate::bits;
use crate::code;
use crate::common::zeroed_vec;
use crate::stream;
use crate::table::{build_table, Entry, Table};
use crate::tables::{
    CLCL_ORDER, DIST_BASE, DIST_EXTRA, FIXED_DIST_LENGTHS, FIXED_LITLEN_LENGTHS, LEN_BASE,
    LEN_EXTRA,
};

verus! {

/// Extra bytes the caller must leave at the end of the output buffer.
///
/// They leave room past the logical end of the data and are never part of the result.
pub const OUTPUT_SLACK: usize = 16;

/// Why a stream could not be decompressed.
///
/// Non-exhaustive: match with a fallback arm.
#[non_exhaustive]
#[derive(Debug, Clone, Copy, PartialEq, Eq, Structural)]
pub enum InflateError {
    /// The two-byte zlib header is not a valid PNG-compatible header.
    BadZlibHeader,
    /// A zlib stream requested a preset dictionary, which PNG does not permit.
    PresetDictionary,
    /// The input ended in the middle of the stream.
    UnexpectedEof,
    /// A block header used the reserved block type.
    InvalidBlockType,
    /// A stored block's length and its complement disagree.
    InvalidStoredLength,
    /// A dynamic block declared more literal/length codes than DEFLATE allows.
    InvalidHlit,
    /// A dynamic block declared more distance codes than DEFLATE allows.
    InvalidHdist,
    /// A code length repeat ran before the first length or past the last one.
    InvalidCodeLengthRepeat,
    /// The code length code lengths do not form a complete Huffman tree.
    BadCodeLengthTree,
    /// The literal/length code lengths do not form a complete Huffman tree.
    BadLiteralLengthTree,
    /// The distance code lengths do not form a valid Huffman tree.
    BadDistanceTree,
    /// A literal/length symbol outside the declared alphabet was decoded.
    InvalidLiteralLengthCode,
    /// A distance symbol outside the declared alphabet was decoded.
    InvalidDistanceCode,
    /// A match referred further back than the start of the output.
    DistanceTooFarBack,
    /// The stream decoded to more bytes than the caller said to expect.
    OutputOverflow,
    /// The stream decoded to fewer bytes than the caller said to expect.
    OutputUnderflow,
    /// The trailing Adler-32 checksum does not match the decompressed data.
    WrongChecksum,
    /// The allocator could not provide an output buffer of the requested size.
    OutOfMemory { bytes: usize },
}

// ---------------------------------------------------------------------------------------
// Bit reader
// ---------------------------------------------------------------------------------------

/// Little-endian bit reader over a complete input buffer.
///
/// The buffer always holds at least 57 valid bits after a refill, which is more than the 48
/// bits the longest literal/length + distance pair can consume. That lets the decode loop
/// refill once per symbol pair and never check bit availability in between.
struct BitReader<'a> {
    input: &'a [u8],
    /// Number of input bytes already shifted into `buf`.
    pos: usize,
    buf: u64,
    nbits: u32,
    /// Zero bits synthesized past the end of `input` that are currently inside `buf`.
    padding: u32,
    /// Whether bits past the end of `input` have been consumed.
    overrun: bool,
    /// Position of the next unread bit.
    at: Ghost<int>,
}

impl<'a> BitReader<'a> {
    #[verifier::opaque]
    spec fn wf(&self) -> bool {
        &&& self.at@ >= 0
        &&& self.nbits <= 64
        &&& self.padding <= self.nbits
        &&& self.pos <= self.input@.len()
        &&& self.padding > 0 || self.overrun ==> self.pos == self.input@.len()
        &&& self.buf == bits::value(self.input@, self.at@, self.nbits as nat)
        &&& (self.at@ + self.nbits) % 8 == 0
        &&& if self.overrun {
            self.at@ > 8 * self.input@.len() && self.padding == self.nbits
        } else {
            self.at@ + self.nbits - self.padding == 8 * self.pos
        }
    }

    fn new(input: &'a [u8]) -> (reader: Self)
        ensures
            reader.wf(),
            reader.input == input,
            reader.at@ == 0,
    {
        proof {
            reveal(BitReader::wf);
        }
        Self { input, pos: 0, buf: 0, nbits: 0, padding: 0, overrun: false, at: Ghost(0) }
    }

    fn refill(&mut self)
        requires
            old(self).wf(),
        ensures
            final(self).wf(),
            final(self).nbits >= 57,
            final(self).input == old(self).input,
            final(self).at == old(self).at,
    {
        proof {
            reveal(BitReader::wf);
        }
        while self.nbits <= 56
            invariant
                self.wf(),
                self.input == old(self).input,
                self.at == old(self).at,
            decreases 64 - self.nbits,
        {
            proof {
                reveal(BitReader::wf);
            }
            let ghost end = self.at@ + self.nbits;
            proof {
                bits::lemma_value_split(self.input@, self.at@, self.nbits as nat, 8);
                bits::lemma_value_bound(self.input@, self.at@, self.nbits as nat);
                bits::lemma_value_bound(self.input@, self.at@, self.nbits as nat + 8);
                bits::lemma_pow2_monotonic(self.nbits as nat + 8, 64);
                lemma2_to64();
            }
            if self.pos < self.input.len() {
                let byte: u64 = self.input[self.pos] as u64;
                proof {
                    assert(end == 8 * self.pos);
                    bits::lemma_value_byte(self.input@, self.pos as int);
                    let m = pow2(self.nbits as nat);
                    assert(byte * m == m * byte) by (nonlinear_arith);
                    vstd::bits::lemma_u64_shl_is_mul(byte, self.nbits as u64);
                }
                self.buf = self.buf + (byte << (self.nbits as u64));
                self.pos = self.pos + 1;
            } else {
                proof {
                    bits::lemma_value_past(self.input@, end, 8);
                    assert(pow2(self.nbits as nat) * 0 == 0) by (nonlinear_arith);
                }
                self.padding = self.padding + 8;
            }
            self.nbits = self.nbits + 8;
        }
    }

    fn peek(&self, count: u32) -> (value: u32)
        requires
            self.wf(),
            count <= self.nbits,
            count <= 31,
        ensures
            value == bits::value(self.input@, self.at@, count as nat),
    {
        proof {
            reveal(BitReader::wf);
        }
        proof {
            bits::lemma_value_split(
                self.input@,
                self.at@,
                count as nat,
                (self.nbits - count) as nat,
            );
            bits::lemma_value_bound(self.input@, self.at@, count as nat);
            bits::lemma_pow2_monotonic(count as nat, 31);
            lemma2_to64();
            vstd::bits::lemma_u64_shl_is_mul(1, count as u64);
            vstd::bits::lemma_u64_low_bits_mask_is_mod(self.buf, count as nat);
        }
        (self.buf & ((1u64 << (count as u64)) - 1)) as u32
    }

    fn consume(&mut self, count: u32)
        requires
            old(self).wf(),
            count <= old(self).nbits,
            count <= 63,
        ensures
            final(self).wf(),
            final(self).input == old(self).input,
            final(self).at@ == old(self).at@ + count,
            final(self).nbits == old(self).nbits - count,
    {
        proof {
            reveal(BitReader::wf);
        }
        proof {
            bits::lemma_value_split(
                self.input@,
                self.at@,
                count as nat,
                (self.nbits - count) as nat,
            );
            vstd::bits::lemma_u64_shr_is_div(self.buf, count as u64);
        }
        self.buf = self.buf >> (count as u64);
        self.nbits = self.nbits - count;
        self.at = Ghost(self.at@ + count);
        if self.padding > self.nbits {
            self.padding = self.nbits;
            self.overrun = true;
        }
    }

    fn take(&mut self, count: u32) -> (value: u32)
        requires
            old(self).wf(),
            count <= old(self).nbits,
            count <= 31,
        ensures
            final(self).wf(),
            final(self).input == old(self).input,
            final(self).at@ == old(self).at@ + count,
            final(self).nbits == old(self).nbits - count,
            value == bits::value(old(self).input@, old(self).at@, count as nat),
    {
        let value: u32 = self.peek(count);
        self.consume(count);
        value
    }

    /// Discards bits up to the next byte boundary.
    #[verifier::rlimit(30)]
    fn align(&mut self)
        requires
            old(self).wf(),
        ensures
            final(self).wf(),
            final(self).input == old(self).input,
            final(self).at@ == 8 * stream::byte_at(old(self).at@),
    {
        proof {
            reveal(BitReader::wf);
        }
        self.consume(self.nbits % 8);
    }

    /// Byte offset of the next unread byte, or an error if decoding consumed bits that were
    /// never in the input.
    fn byte_position(&self) -> (result: Result<usize, InflateError>)
        requires
            self.wf(),
            self.at@ % 8 == 0,
        ensures
            match result {
                Ok(start) => start <= self.input@.len() && 8 * start == self.at@,
                Err(error) => error == InflateError::UnexpectedEof && self.at@ > 8
                    * self.input@.len(),
            },
    {
        proof {
            reveal(BitReader::wf);
        }
        if self.overrun {
            return Err(InflateError::UnexpectedEof);
        }
        Ok(self.pos - ((self.nbits - self.padding) / 8) as usize)
    }

    /// Restarts reading at an absolute byte offset, discarding any buffered bits.
    fn seek(&mut self, byte_pos: usize)
        requires
            byte_pos <= old(self).input@.len(),
        ensures
            final(self).wf(),
            final(self).input == old(self).input,
            final(self).at@ == 8 * byte_pos,
    {
        proof {
            reveal(BitReader::wf);
        }
        self.pos = byte_pos;
        self.buf = 0;
        self.nbits = 0;
        self.padding = 0;
        self.overrun = false;
        self.at = Ghost(8 * byte_pos as int);
    }
}

// ---------------------------------------------------------------------------------------
// Decompressor
// ---------------------------------------------------------------------------------------

const LITLEN_TABLE_BITS: u32 = 12;

const DIST_TABLE_BITS: u32 = 9;

const CLCL_TABLE_BITS: u32 = 7;

/// Copies `length` bytes from `distance` bytes back to `output[pos..]`.
fn copy_back(output: &mut [u8], pos: usize, distance: usize, length: usize)
    requires
        1 <= distance <= pos,
        pos + length <= old(output)@.len(),
        pos + length <= usize::MAX,
    ensures
        final(output)@.len() == old(output)@.len(),
        final(output)@.take(pos + length) == stream::copy_match(
            old(output)@.take(pos as int),
            distance as int,
            length as nat,
        ),
{
    let mut done: usize = 0;
    let ghost before = output@.take(pos as int);
    while done < length
        invariant
            done <= length,
            1 <= distance <= pos,
            pos + length <= output@.len() == old(output)@.len(),
            pos + length <= usize::MAX,
            before == old(output)@.take(pos as int),
            output@.take(pos + done) == stream::copy_match(before, distance as int, done as nat),
        decreases length - done,
    {
        let byte: u8 = output[pos + done - distance];
        let ghost so_far = output@.take(pos + done);
        output[pos + done] = byte;
        proof {
            assert(so_far[pos + done - distance] == byte);
            assert(output@.take(pos + done + 1) =~= so_far.push(byte));
        }
        done = done + 1;
    }
}

/// The rest of a match whose length symbol is the one numbered `index`: its length and its
/// distance.
fn read_match(
    dist: &Table,
    reader: &mut BitReader,
    index: usize,
    Ghost(dl): Ghost<Seq<u8>>,
) -> (result: Result<(usize, usize), InflateError>)
    requires
        old(reader).wf(),
        old(reader).nbits >= 42,
        index < 29,
        dist.serves(dl),
        dist.plain(),
        code::fits(dl),
        dl.len() <= 32,
    ensures
        final(reader).wf(),
        final(reader).input == old(reader).input,
        match result {
            Ok((length, distance)) => stream::back_reference(
                dl,
                old(reader).input@,
                old(reader).at@,
                index as int,
            ) == Ok::<(nat, int, int), InflateError>(
                (length as nat, distance as int, final(reader).at@),
            ) && 3 <= length <= 300 && 1 <= distance <= 40000,
            Err(error) => stream::back_reference(
                dl,
                old(reader).input@,
                old(reader).at@,
                index as int,
            ) == Err::<(nat, int, int), InflateError>(error),
        },
{
    let ghost data = reader.input@;
    let ghost p = reader.at@;
    proof {
        crate::tables::lemma_len_range();
        crate::tables::lemma_dist_range();
        bits::lemma_pow2_small();
        bits::lemma_value_bound(data, p, LEN_EXTRA@[index as int] as nat);
        bits::lemma_pow2_monotonic(LEN_EXTRA@[index as int] as nat, 5);
    }
    let length: usize = LEN_BASE[index] as usize + reader.take(LEN_EXTRA[index] as u32) as usize;
    proof {
        crate::table::lemma_lookup_decodes(*dist, dl, data, reader.at@);
    }
    let window: u32 = reader.peek(15);
    match dist.lookup(window) {
        Entry::Symbol { symbol, bits } => {
            if symbol >= 30 {
                return Err(InflateError::InvalidDistanceCode);
            }
            reader.consume(bits as u32);
            proof {
                bits::lemma_value_bound(data, reader.at@, DIST_EXTRA@[symbol as int] as nat);
                bits::lemma_pow2_monotonic(DIST_EXTRA@[symbol as int] as nat, 13);
            }
            let distance: usize = DIST_BASE[symbol as usize] as usize + reader.take(
                DIST_EXTRA[symbol as usize] as u32,
            ) as usize;
            Ok((length, distance))
        },
        _ => Err(InflateError::InvalidDistanceCode),
    }
}

/// Decodes one compressed block into `output[start_pos..limit]`, returning the new output
/// position.
fn decode_block(
    litlen: &Table,
    dist: &Table,
    reader: &mut BitReader,
    output: &mut [u8],
    start_pos: usize,
    limit: usize,
    Ghost(ll): Ghost<Seq<u8>>,
    Ghost(dl): Ghost<Seq<u8>>,
) -> (result: Result<usize, InflateError>)
    requires
        old(reader).wf(),
        litlen.serves(ll),
        code::fits(ll),
        dist.serves(dl),
        dist.plain(),
        code::fits(dl),
        dl.len() <= 32,
        start_pos <= limit <= old(output)@.len(),
    ensures
        final(reader).wf(),
        final(reader).input == old(reader).input,
        final(output)@.len() == old(output)@.len(),
        match result {
            Ok(pos) => pos <= limit && stream::symbols(
                ll,
                dl,
                old(reader).input@,
                old(reader).at@,
                old(output)@.take(start_pos as int),
                limit as nat,
            ) == Ok::<(Seq<u8>, int), InflateError>(
                (final(output)@.take(pos as int), final(reader).at@),
            ),
            Err(error) => stream::symbols(
                ll,
                dl,
                old(reader).input@,
                old(reader).at@,
                old(output)@.take(start_pos as int),
                limit as nat,
            ) == Err::<(Seq<u8>, int), InflateError>(error),
        },
{
    let ghost data = reader.input@;
    let ghost target = stream::symbols(
        ll,
        dl,
        data,
        reader.at@,
        output@.take(start_pos as int),
        limit as nat,
    );
    let mut pos: usize = start_pos;
    loop
        invariant
            reader.wf(),
            reader.input == old(reader).input,
            data == reader.input@,
            litlen.serves(ll),
            code::fits(ll),
            dist.serves(dl),
            dist.plain(),
            code::fits(dl),
            dl.len() <= 32,
            pos <= limit <= output@.len(),
            output@.len() == old(output)@.len(),
            target == stream::symbols(
                ll,
                dl,
                data,
                reader.at@,
                output@.take(pos as int),
                limit as nat,
            ),
            target == stream::symbols(
                ll,
                dl,
                old(reader).input@,
                old(reader).at@,
                old(output)@.take(start_pos as int),
                limit as nat,
            ),
        decreases limit - pos,
    {
        reader.refill();
        let ghost p = reader.at@;
        let ghost out = output@.take(pos as int);
        proof {
            crate::table::lemma_lookup_decodes(*litlen, ll, data, p);
        }
        let window: u32 = reader.peek(15);
        match litlen.lookup(window) {
            Entry::Literals { first, second, bits } => {
                let ghost q = p + ll[first as int];
                proof {
                    assert(target == if out.len() >= limit {
                        Err(InflateError::OutputOverflow)
                    } else {
                        stream::symbols(ll, dl, data, q, out.push(first), limit as nat)
                    });
                }
                if pos >= limit {
                    return Err(InflateError::OutputOverflow);
                }
                if pos + 1 >= limit {
                    return Err(InflateError::OutputOverflow);
                }
                output[pos] = first;
                output[pos + 1] = second;
                proof {
                    assert(output@.take(pos + 2) =~= out.push(first).push(second));
                }
                reader.consume(bits as u32);
                pos = pos + 2;
            },
            Entry::Symbol { symbol, bits } => {
                reader.consume(bits as u32);
                if symbol < 256 {
                    if pos >= limit {
                        return Err(InflateError::OutputOverflow);
                    }
                    output[pos] = symbol as u8;
                    proof {
                        assert(output@.take(pos + 1) =~= out.push(symbol as u8));
                    }
                    pos = pos + 1;
                } else if symbol == 256 {
                    return Ok(pos);
                } else if symbol > 285 {
                    return Err(InflateError::InvalidLiteralLengthCode);
                } else {
                    match read_match(dist, reader, symbol as usize - 257, Ghost(dl)) {
                        Err(error) => {
                            return Err(error);
                        },
                        Ok((length, distance)) => {
                            if distance > pos {
                                return Err(InflateError::DistanceTooFarBack);
                            }
                            if length > limit - pos {
                                return Err(InflateError::OutputOverflow);
                            }
                            copy_back(output, pos, distance, length);
                            pos = pos + length;
                        },
                    }
                }
            },
            _ => {
                return Err(InflateError::InvalidLiteralLengthCode);
            },
        }
    }
}

/// A reusable DEFLATE decompressor.
///
/// Holding the decoding tables across calls avoids reallocating them for every image.
#[derive(Debug)]
pub struct Inflater {
    litlen: Table,
    dist: Table,
    clcl: Table,
    verify_checksum: bool,
}

impl Default for Inflater {
    fn default() -> (inflater: Self)
        ensures
            inflater.wf(),
            inflater.verifies(),
    {
        Self::new()
    }
}

impl Inflater {
    /// Whether the tables have their proper sizes. Every decompressor made by
    /// [`new`](Self::new) does, and every call keeps it so.
    pub closed spec fn wf(&self) -> bool {
        &&& self.litlen.wf() && self.litlen.width == LITLEN_TABLE_BITS
        &&& self.dist.wf() && self.dist.width == DIST_TABLE_BITS
        &&& self.clcl.wf() && self.clcl.width == CLCL_TABLE_BITS
    }

    /// Whether the trailing checksum is verified.
    pub closed spec fn verifies(&self) -> bool {
        self.verify_checksum
    }

    /// A decompressor with empty tables, which verifies checksums.
    pub fn new() -> (inflater: Self)
        ensures
            inflater.wf(),
            inflater.verifies(),
    {
        Self {
            litlen: Table::new(LITLEN_TABLE_BITS),
            dist: Table::new(DIST_TABLE_BITS),
            clcl: Table::new(CLCL_TABLE_BITS),
            verify_checksum: true,
        }
    }

    /// Enables or disables verification of the trailing Adler-32 checksum.
    ///
    /// PNG chunks carry their own CRC, so a caller that already verified those has checked
    /// the same bytes once; skipping the Adler-32 avoids a second pass over the output.
    pub fn verify_checksum(&mut self, verify: bool) -> (result: &mut Self)
        requires
            old(self).wf(),
        ensures
            result.wf(),
            result.verifies() == verify,
            *final(self) == *final(result),
    {
        self.verify_checksum = verify;
        self
    }

    /// Decompresses a zlib stream into `output`.
    ///
    /// The stream must expand to exactly `output.len() - OUTPUT_SLACK` bytes; the trailing
    /// slack never holds result data.
    ///
    /// PNG is the shape this is cut for: `IHDR` states the decompressed size, so a stream
    /// that stops short is a corrupt file and saying so is the useful answer. A caller who
    /// does not know the length in advance has no such expectation to check against and
    /// wants [`zlib_at_most`](Self::zlib_at_most).
    pub fn zlib(&mut self, input: &[u8], output: &mut [u8]) -> (result: Result<usize, InflateError>)
        requires
            old(self).wf(),
            old(output)@.len() >= OUTPUT_SLACK,
        ensures
            final(self).wf(),
            final(self).verifies() == old(self).verifies(),
            final(output)@.len() == old(output)@.len(),
            match result {
                Ok(written) => written == old(output)@.len() - OUTPUT_SLACK && stream::zlib_exact(
                    input@,
                    (old(output)@.len() - OUTPUT_SLACK) as nat,
                    old(self).verifies(),
                ) == Ok::<Seq<u8>, InflateError>(final(output)@.take(written as int)),
                Err(error) => stream::zlib_exact(
                    input@,
                    (old(output)@.len() - OUTPUT_SLACK) as nat,
                    old(self).verifies(),
                ) == Err::<Seq<u8>, InflateError>(error),
            },
    {
        let written: usize = match self.zlib_at_most(input, output) {
            Ok(written) => written,
            Err(error) => {
                return Err(error);
            },
        };
        if written != output.len() - OUTPUT_SLACK {
            return Err(InflateError::OutputUnderflow);
        }
        Ok(written)
    }

    /// Decompresses a zlib stream into `output`, accepting any length that fits.
    ///
    /// Identical to [`zlib`](Self::zlib) except that a stream expanding to less than
    /// `output.len() - OUTPUT_SLACK` bytes is a success rather than
    /// [`OutputUnderflow`](InflateError::OutputUnderflow); the count is returned. One that
    /// expands to more is still [`OutputOverflow`](InflateError::OutputOverflow), since
    /// there is nowhere to put the rest.
    ///
    /// Nothing beyond the returned length is meaningful.
    pub fn zlib_at_most(&mut self, input: &[u8], output: &mut [u8]) -> (result: Result<
        usize,
        InflateError,
    >)
        requires
            old(self).wf(),
            old(output)@.len() >= OUTPUT_SLACK,
        ensures
            final(self).wf(),
            final(self).verifies() == old(self).verifies(),
            final(output)@.len() == old(output)@.len(),
            match result {
                Ok(written) => written <= old(output)@.len() - OUTPUT_SLACK && stream::zlib(
                    input@,
                    (old(output)@.len() - OUTPUT_SLACK) as nat,
                    old(self).verifies(),
                ) == Ok::<Seq<u8>, InflateError>(final(output)@.take(written as int)),
                Err(error) => stream::zlib(
                    input@,
                    (old(output)@.len() - OUTPUT_SLACK) as nat,
                    old(self).verifies(),
                ) == Err::<Seq<u8>, InflateError>(error),
            },
    {
        let limit: usize = output.len() - OUTPUT_SLACK;
        if input.len() < 2 {
            return Err(InflateError::UnexpectedEof);
        }
        let cmf: u8 = input[0];
        let flg: u8 = input[1];
        if cmf % 16 != 8 || cmf / 16 > 7 || (cmf as u16 * 256 + flg as u16) % 31 != 0 {
            return Err(InflateError::BadZlibHeader);
        }
        if (flg / 32) % 2 != 0 {
            return Err(InflateError::PresetDictionary);
        }
        let body: &[u8] = &input[2..input.len()];
        assert(body@ =~= input@.skip(2));
        let (written, consumed): (usize, usize) = match self.inflate(body, output, limit) {
            Ok(counts) => counts,
            Err(error) => {
                return Err(error);
            },
        };
        if body.len() - consumed < 4 {
            return Err(InflateError::UnexpectedEof);
        }
        if self.verify_checksum {
            let at: usize = 2 + consumed;
            let expected: u32 = 16777216 * input[at] as u32 + 65536 * input[at + 1] as u32 + 256
                * input[at + 2] as u32 + input[at + 3] as u32;
            let mut checksum = Adler32::new();
            checksum.update(&output[0..written]);
            assert(output@.subrange(0, written as int) =~= output@.take(written as int));
            if checksum.finish() != expected {
                return Err(InflateError::WrongChecksum);
            }
        }
        Ok(written)
    }

    fn build_fixed_tables(&mut self)
        requires
            old(self).wf(),
        ensures
            final(self).wf(),
            final(self).verifies() == old(self).verifies(),
            final(self).litlen.serves(FIXED_LITLEN_LENGTHS@),
            final(self).dist.serves(FIXED_DIST_LENGTHS@),
            final(self).dist.plain(),
            code::fits(FIXED_LITLEN_LENGTHS@),
            code::fits(FIXED_DIST_LENGTHS@),
    {
        proof {
            crate::tables::lemma_fixed_litlen();
            crate::tables::lemma_fixed_dist();
        }
        build_table(&FIXED_LITLEN_LENGTHS, &mut self.litlen, false, true);
        build_table(&FIXED_DIST_LENGTHS, &mut self.dist, true, false);
    }

    fn read_dynamic_header(&mut self, reader: &mut BitReader) -> (result: Result<(), InflateError>)
        requires
            old(self).wf(),
            old(reader).wf(),
        ensures
            final(self).wf(),
            final(self).verifies() == old(self).verifies(),
            final(reader).wf(),
            final(reader).input == old(reader).input,
            match result {
                Ok(()) => stream::dynamic_codes(old(reader).input@, old(reader).at@) matches Ok(
                    (ll, dl, q),
                ) && final(reader).at@ == q && final(self).litlen.serves(ll) && code::fits(ll)
                    && final(self).dist.serves(dl) && final(self).dist.plain() && code::fits(dl)
                    && dl.len() == 32,
                Err(error) => stream::dynamic_codes(old(reader).input@, old(reader).at@) == Err::<
                    (Seq<u8>, Seq<u8>, int),
                    InflateError,
                >(error),
            },
    {
        let ghost data = reader.input@;
        let ghost p = reader.at@;
        proof {
            bits::lemma_pow2_small();
            bits::lemma_value_bound(data, p, 5);
            bits::lemma_value_bound(data, p + 5, 5);
            bits::lemma_value_bound(data, p + 10, 4);
        }
        reader.refill();
        let hlit: usize = reader.take(5) as usize + 257;
        let hdist: usize = reader.take(5) as usize + 1;
        let hclen: usize = reader.take(4) as usize + 4;
        if hlit > 286 {
            return Err(InflateError::InvalidHlit);
        }
        if hdist > 30 {
            return Err(InflateError::InvalidHdist);
        }
        let mut clcl_lengths: [u8; 19] = [0; 19];
        let mut k: usize = 0;
        assert(clcl_lengths@ =~= stream::clcl_lengths(data, p + 14, 0));
        while k < hclen
            invariant
                k <= hclen <= 19,
                reader.wf(),
                reader.input == old(reader).input,
                data == reader.input@,
                reader.at@ == p + 14 + 3 * k,
                clcl_lengths@ == stream::clcl_lengths(data, p + 14, k as nat),
                code::in_range(clcl_lengths@),
            decreases hclen - k,
        {
            reader.refill();
            proof {
                bits::lemma_pow2_small();
                bits::lemma_value_bound(data, p + 14 + 3 * k, 3);
                crate::tables::lemma_clcl_order();
            }
            let symbol: usize = CLCL_ORDER[k] as usize;
            let ghost before = clcl_lengths@;
            clcl_lengths[symbol] = reader.take(3) as u8;
            k = k + 1;
            proof {
                assert(clcl_lengths@ =~= stream::clcl_lengths(data, p + 14, k as nat));
                assert forall|i: int| 0 <= i < 19 implies #[trigger] clcl_lengths@[i] <= 15 by {
                    assert(before[i] <= 15);
                }
            }
        }
        let ghost cl = clcl_lengths@;
        if !build_table(&clcl_lengths, &mut self.clcl, false, false) {
            return Err(InflateError::BadCodeLengthTree);
        }
        let total: usize = hlit + hdist;
        let lengths: Vec<u8> = match read_code_lengths(&self.clcl, reader, total, Ghost(cl)) {
            Ok(lengths) => lengths,
            Err(error) => {
                return Err(error);
            },
        };
        let ghost all = lengths@;

        // The distance alphabet is always built over 32 symbols so that symbols 30 and 31,
        // which are legal in the code but never usable, are rejected by the decoder.
        let mut dist_lengths: [u8; 32] = [0; 32];
        let mut i: usize = 0;
        while i < hdist
            invariant
                i <= hdist <= 30,
                all == lengths@,
                all.len() == hlit + hdist,
                hlit <= 286,
                forall|j: int| 0 <= j < i ==> #[trigger] dist_lengths@[j] == all[hlit + j],
                forall|j: int| i <= j < 32 ==> #[trigger] dist_lengths@[j] == 0,
            decreases hdist - i,
        {
            dist_lengths[i] = lengths[hlit + i];
            i = i + 1;
        }
        proof {
            let dl = all.skip(hlit as int) + Seq::new((32 - hdist) as nat, |i: int| 0u8);
            assert(dist_lengths@ =~= dl);
            assert(code::in_range(all.take(hlit as int)));
            assert forall|j: int| 0 <= j < 32 implies #[trigger] dist_lengths@[j] <= 15 by {
                if j < hdist {
                    assert(all[hlit + j] <= 15);
                }
            }
        }
        if !build_table(&lengths[0..hlit], &mut self.litlen, false, true) {
            return Err(InflateError::BadLiteralLengthTree);
        }
        if !build_table(&dist_lengths, &mut self.dist, true, false) {
            return Err(InflateError::BadDistanceTree);
        }
        Ok(())
    }

    /// Decodes one block from its type bits on, returning the new output position.
    fn read_block(
        &mut self,
        reader: &mut BitReader,
        output: &mut [u8],
        start_pos: usize,
        limit: usize,
    ) -> (result: Result<usize, InflateError>)
        requires
            old(self).wf(),
            old(reader).wf(),
            old(reader).nbits >= 2,
            start_pos <= limit <= old(output)@.len(),
        ensures
            final(self).wf(),
            final(self).verifies() == old(self).verifies(),
            final(reader).wf(),
            final(reader).input == old(reader).input,
            final(output)@.len() == old(output)@.len(),
            match result {
                Ok(pos) => pos <= limit && stream::block(
                    old(reader).input@,
                    old(reader).at@,
                    old(output)@.take(start_pos as int),
                    limit as nat,
                ) == Ok::<(Seq<u8>, int), InflateError>(
                    (final(output)@.take(pos as int), final(reader).at@),
                ),
                Err(error) => stream::block(
                    old(reader).input@,
                    old(reader).at@,
                    old(output)@.take(start_pos as int),
                    limit as nat,
                ) == Err::<(Seq<u8>, int), InflateError>(error),
            },
    {
        let ghost data = reader.input@;
        proof {
            reveal(stream::block);
        }
        let block_type: u32 = reader.take(2);
        if block_type == 0 {
            copy_stored(reader, output, start_pos, limit)
        } else if block_type == 1 {
            self.build_fixed_tables();
            decode_block(
                &self.litlen,
                &self.dist,
                reader,
                output,
                start_pos,
                limit,
                Ghost(FIXED_LITLEN_LENGTHS@),
                Ghost(FIXED_DIST_LENGTHS@),
            )
        } else if block_type == 2 {
            let ghost codes = stream::dynamic_codes(data, reader.at@)->Ok_0;
            match self.read_dynamic_header(reader) {
                Ok(()) => {},
                Err(error) => {
                    return Err(error);
                },
            }
            decode_block(
                &self.litlen,
                &self.dist,
                reader,
                output,
                start_pos,
                limit,
                Ghost(codes.0),
                Ghost(codes.1),
            )
        } else {
            Err(InflateError::InvalidBlockType)
        }
    }

    /// Decodes a raw DEFLATE stream, returning the bytes written and the input bytes read.
    fn inflate(&mut self, input: &[u8], output: &mut [u8], limit: usize) -> (result: Result<
        (usize, usize),
        InflateError,
    >)
        requires
            old(self).wf(),
            limit <= old(output)@.len(),
        ensures
            final(self).wf(),
            final(self).verifies() == old(self).verifies(),
            final(output)@.len() == old(output)@.len(),
            match result {
                Ok((written, consumed)) => written <= limit && consumed <= input@.len()
                    && stream::inflate(input@, limit as nat) == Ok::<(Seq<u8>, int), InflateError>(
                    (final(output)@.take(written as int), consumed as int),
                ),
                Err(error) => stream::inflate(input@, limit as nat) == Err::<
                    (Seq<u8>, int),
                    InflateError,
                >(error),
            },
    {
        let mut reader = BitReader::new(input);
        let mut out_pos: usize = 0;
        let ghost data = input@;
        let ghost target = stream::blocks(data, 0, Seq::empty(), limit as nat);
        assert(output@.take(0) =~= Seq::<u8>::empty());
        loop
            invariant_except_break
                target == stream::blocks(
                    data,
                    reader.at@,
                    output@.take(out_pos as int),
                    limit as nat,
                ),
            invariant
                self.wf(),
                self.verifies() == old(self).verifies(),
                reader.wf(),
                reader.at@ >= 0,
                reader.input == input,
                data == input@,
                out_pos <= limit <= output@.len(),
                output@.len() == old(output)@.len(),
                target == stream::blocks(data, 0, Seq::empty(), limit as nat),
            ensures
                target == Ok::<(Seq<u8>, int), InflateError>(
                    (output@.take(out_pos as int), reader.at@),
                ),
            decreases
                    (if reader.at@ < 8 * data.len() {
                        8 * data.len() - reader.at@
                    } else {
                        0
                    }),
        {
            reader.refill();
            let ghost p = reader.at@;
            let ghost out = output@.take(out_pos as int);
            proof {
                bits::lemma_pow2_small();
                bits::lemma_value_one(data, p);
                stream::lemma_block_progress(data, p + 1, out, limit as nat);
                if p >= 8 * data.len() {
                    stream::lemma_block_past(data, p + 1, out, limit as nat);
                }
            }
            let last_block: bool = reader.take(1) != 0;
            match self.read_block(&mut reader, output, out_pos, limit) {
                Ok(pos) => {
                    out_pos = pos;
                },
                Err(error) => {
                    return Err(error);
                },
            }
            if last_block {
                break;
            }
        }
        reader.align();
        match reader.byte_position() {
            Ok(consumed) => Ok((out_pos, consumed)),
            Err(error) => Err(error),
        }
    }
}

/// Copies a stored block, whose header bits have been read, to `output[start_pos..limit]`.
fn copy_stored(reader: &mut BitReader, output: &mut [u8], start_pos: usize, limit: usize) -> (result:
    Result<usize, InflateError>)
    requires
        old(reader).wf(),
        start_pos <= limit <= old(output)@.len(),
    ensures
        final(reader).wf(),
        final(reader).input == old(reader).input,
        final(output)@.len() == old(output)@.len(),
        match result {
            Ok(pos) => pos <= limit && stream::stored(
                old(reader).input@,
                old(reader).at@,
                old(output)@.take(start_pos as int),
                limit as nat,
            ) == Ok::<(Seq<u8>, int), InflateError>(
                (final(output)@.take(pos as int), final(reader).at@),
            ),
            Err(error) => stream::stored(
                old(reader).input@,
                old(reader).at@,
                old(output)@.take(start_pos as int),
                limit as nat,
            ) == Err::<(Seq<u8>, int), InflateError>(error),
        },
{
    let input: &[u8] = reader.input;
    reader.align();
    let start: usize = match reader.byte_position() {
        Ok(start) => start,
        Err(error) => {
            return Err(error);
        },
    };
    if input.len() - start < 4 {
        return Err(InflateError::UnexpectedEof);
    }
    let len: usize = input[start] as usize + 256 * input[start + 1] as usize;
    let complement: usize = input[start + 2] as usize + 256 * input[start + 3] as usize;
    if len + complement != 65535 {
        return Err(InflateError::InvalidStoredLength);
    }
    let data_start: usize = start + 4;
    if len > input.len() - data_start {
        return Err(InflateError::UnexpectedEof);
    }
    if len > limit - start_pos {
        return Err(InflateError::OutputOverflow);
    }
    copy_bytes(&input[data_start..data_start + len], output, start_pos);
    reader.seek(data_start + len);
    Ok(start_pos + len)
}

/// Copies `source` to `output[pos..]`.
fn copy_bytes(source: &[u8], output: &mut [u8], pos: usize)
    requires
        pos + source@.len() <= old(output)@.len(),
    ensures
        final(output)@.len() == old(output)@.len(),
        final(output)@.take((pos + source@.len()) as int) == old(output)@.take(pos as int) + source@,
{
    let mut i: usize = 0;
    assert(output.len() <= usize::MAX);
    assert(output@.take(pos as int) =~= output@.take(pos as int) + source@.take(0));
    while i < source.len()
        invariant
            i <= source@.len(),
            pos + source@.len() <= output@.len() <= usize::MAX,
            output@.len() == old(output)@.len(),
            output@.take(pos + i) == old(output)@.take(pos as int) + source@.take(i as int),
        decreases source.len() - i,
    {
        let ghost before = output@.take(pos + i);
        output[pos + i] = source[i];
        proof {
            assert(output@.take(pos + i + 1) =~= before.push(source@[i as int]));
            assert(source@.take(i + 1) =~= source@.take(i as int).push(source@[i as int]));
        }
        i = i + 1;
    }
    assert(source@.take(i as int) =~= source@);
}

/// Reads the code lengths of a dynamic block, run-length coded with the code `cl`.
fn read_code_lengths(
    clcl: &Table,
    reader: &mut BitReader,
    total: usize,
    Ghost(cl): Ghost<Seq<u8>>,
) -> (result: Result<Vec<u8>, InflateError>)
    requires
        old(reader).wf(),
        clcl.serves(cl),
        clcl.plain(),
        code::fits(cl),
        cl.len() == 19,
        total <= 320,
    ensures
        final(reader).wf(),
        final(reader).input == old(reader).input,
        match result {
            Ok(lengths) => stream::code_lengths(
                cl,
                old(reader).input@,
                old(reader).at@,
                Seq::empty(),
                total as nat,
            ) == Ok::<(Seq<u8>, int), InflateError>((lengths@, final(reader).at@))
                && lengths@.len() == total && code::in_range(lengths@),
            Err(error) => stream::code_lengths(
                cl,
                old(reader).input@,
                old(reader).at@,
                Seq::empty(),
                total as nat,
            ) == Err::<(Seq<u8>, int), InflateError>(error),
        },
{
    let ghost data = reader.input@;
    let ghost target = stream::code_lengths(cl, data, reader.at@, Seq::empty(), total as nat);
    let mut lengths: Vec<u8> = Vec::with_capacity(total);
    while lengths.len() < total
        invariant
            reader.wf(),
            reader.input == old(reader).input,
            data == reader.input@,
            clcl.serves(cl),
            clcl.plain(),
            code::fits(cl),
            cl.len() == 19,
            lengths@.len() <= total <= 320,
            code::in_range(lengths@),
            target == stream::code_lengths(cl, data, reader.at@, lengths@, total as nat),
            target == stream::code_lengths(
                cl,
                old(reader).input@,
                old(reader).at@,
                Seq::empty(),
                total as nat,
            ),
        decreases total - lengths.len(),
    {
        reader.refill();
        let ghost p = reader.at@;
        proof {
            crate::table::lemma_lookup_decodes(*clcl, cl, data, p);
            bits::lemma_pow2_small();
        }
        let window: u32 = reader.peek(15);
        let (symbol, code_bits): (u16, u8) = match clcl.lookup(window) {
            Entry::Symbol { symbol, bits } => (symbol, bits),
            _ => {
                return Err(InflateError::BadCodeLengthTree);
            },
        };
        reader.consume(code_bits as u32);
        if symbol < 16 {
            lengths.push(symbol as u8);
            continue;
        }
        let ghost so_far = lengths@;
        if symbol == 16 && lengths.len() == 0 {
            return Err(InflateError::InvalidCodeLengthRepeat);
        }
        let (length, least, extra): (u8, usize, u32) = if symbol == 16 {
            (lengths[lengths.len() - 1], 3, 2)
        } else if symbol == 17 {
            (0, 3, 3)
        } else {
            (0, 11, 7)
        };
        proof {
            bits::lemma_value_bound(data, reader.at@, extra as nat);
            bits::lemma_pow2_monotonic(extra as nat, 7);
        }
        let repeat: usize = least + reader.take(extra) as usize;
        if repeat > total - lengths.len() {
            return Err(InflateError::InvalidCodeLengthRepeat);
        }
        let mut done: usize = 0;
        while done < repeat
            invariant
                done <= repeat,
                length <= 15,
                code::in_range(so_far),
                lengths@ == stream::repeated(so_far, length, done as nat),
            decreases repeat - done,
        {
            lengths.push(length);
            done = done + 1;
            assert(lengths@ =~= stream::repeated(so_far, length, done as nat));
        }
        assert forall|i: int| 0 <= i < lengths@.len() implies #[trigger] lengths@[i] <= 15 by {
            if i < so_far.len() {
                assert(lengths@[i] == so_far[i]);
            }
        }
    }
    Ok(lengths)
}

/// Decompresses a zlib stream that is known to expand to exactly `expected_len` bytes.
///
/// The result is what [`Inflater::zlib`] gives for a buffer of that size, unless the
/// allocator has no such buffer.
pub fn decompress_zlib(input: &[u8], expected_len: usize) -> (result: Result<Vec<u8>, InflateError>)
    ensures
        expected_len + OUTPUT_SLACK > usize::MAX ==> result == Err::<Vec<u8>, InflateError>(
            InflateError::OutOfMemory { bytes: expected_len },
        ),
        expected_len + OUTPUT_SLACK <= usize::MAX ==> match result {
            Ok(output) => stream::zlib_exact(input@, expected_len as nat, true) == Ok::<
                Seq<u8>,
                InflateError,
            >(output@),
            Err(error) => error == (InflateError::OutOfMemory {
                bytes: (expected_len + OUTPUT_SLACK) as usize,
            }) || stream::zlib_exact(input@, expected_len as nat, true) == Err::<
                Seq<u8>,
                InflateError,
            >(error),
        },
{
    // `expected_len` is the caller's, and on the paths this exists for it came out of a file.
    // A length that cannot have its slack added is refused like any other unmeetable size.
    if expected_len > usize::MAX - OUTPUT_SLACK {
        return Err(InflateError::OutOfMemory { bytes: expected_len });
    }
    let request: usize = expected_len + OUTPUT_SLACK;
    let mut output: Vec<u8> = match zeroed_vec(request) {
        Some(output) => output,
        None => {
            return Err(InflateError::OutOfMemory { bytes: request });
        },
    };
    let mut inflater = Inflater::new();
    match inflater.zlib(input, output.as_mut_slice()) {
        Ok(written) => {
            output.truncate(written);
            Ok(output)
        },
        Err(error) => Err(error),
    }
}

/// The bytes that attempt `k` to expand a stream of `len` bytes leaves room for: four times
/// the stream and at least a kibibyte at first, then twice as much each time, but never more
/// than `max_output`.
pub open spec fn capacity_at(len: nat, max_output: nat, k: nat) -> nat
    decreases k,
{
    let wanted: nat = if k > 0 {
        2 * capacity_at(len, max_output, (k - 1) as nat)
    } else if 4 * len < 1024 {
        1024
    } else {
        4 * len
    };
    if wanted < max_output {
        wanted
    } else {
        max_output
    }
}

/// Whether attempt `k` is made, and needs a buffer of `bytes` bytes: everything before it was
/// too small for the stream. A size to which the slack cannot be added is named without it.
pub open spec fn attempted(input: Seq<u8>, max_output: nat, k: nat, bytes: nat) -> bool {
    let capacity = capacity_at(input.len(), max_output, k);
    &&& bytes == (if capacity + OUTPUT_SLACK <= usize::MAX {
        capacity + OUTPUT_SLACK
    } else {
        capacity as int
    })
    &&& forall|j: nat|
        j < k ==> #[trigger] capacity_at(input.len(), max_output, j) < max_output && stream::zlib(
            input,
            capacity_at(input.len(), max_output, j),
            true,
        ) == Err::<Seq<u8>, InflateError>(InflateError::OutputOverflow)
}

/// The bytes that the attempts before the `k`-th leave room for, together.
pub open spec fn discarded(len: nat, max_output: nat, k: nat) -> nat
    decreases k,
{
    if k == 0 {
        0
    } else {
        discarded(len, max_output, (k - 1) as nat) + capacity_at(
            len,
            max_output,
            (k - 1) as nat,
        )
    }
}

/// Doubling bounds the work that is thrown away: the attempts that were too small sum up to
/// twice the last of them, less the first. Where the attempt behind them is twice the last,
/// and not cut off by the ceiling, that is just under its size.
pub proof fn law_discarded_attempts(len: nat, max_output: nat, k: nat)
    requires
        k >= 1,
        forall|j: nat| j < k ==> #[trigger] capacity_at(len, max_output, j) < max_output,
    ensures
        discarded(len, max_output, k) + capacity_at(len, max_output, 0) == 2 * capacity_at(
            len,
            max_output,
            (k - 1) as nat,
        ),
        2 * capacity_at(len, max_output, (k - 1) as nat) <= max_output ==> discarded(
            len,
            max_output,
            k,
        ) < capacity_at(len, max_output, k),
    decreases k,
{
    assert(capacity_at(len, max_output, 0) < max_output);
    assert(capacity_at(len, max_output, (k - 1) as nat) < max_output);
    reveal_with_fuel(discarded, 2);
    if k > 1 {
        law_discarded_attempts(len, max_output, (k - 1) as nat);
    }
}

/// Whether some attempt that is made needs a buffer of `bytes` bytes.
pub open spec fn may_ask_for(input: Seq<u8>, max_output: nat, bytes: nat) -> bool {
    exists|k: nat| #[trigger] attempted(input, max_output, k, bytes)
}

/// Decompresses a zlib stream of unknown length, growing the output buffer as needed and
/// giving up past `max_output` bytes.
///
/// Use this when the length is not recorded anywhere trustworthy. A length field read from
/// an untrusted file is not an answer to that problem, it is a restatement of it: taking one
/// at face value is an instruction to allocate whatever the file asks for, which is why
/// `max_output` is a parameter and not a default. Truncation is caught regardless, by the
/// Adler-32 the zlib framing already carries over the data.
///
/// The cost of not knowing is decoding more than once. The decompressor holds its whole
/// output buffer as the match window and so cannot resume into a larger one; a buffer that
/// fills is therefore discarded and the stream decoded again into a buffer twice the size.
/// The discarded attempts sum to just under the size of the one that succeeds, as long as
/// `max_output` does not cut that one short, so the doubling bounds the wasted work at about
/// one extra pass over the data. That is not free, and a caller who *does* know the length
/// should say so through [`decompress_zlib`] instead.
///
/// Returns [`OutputOverflow`](InflateError::OutputOverflow) if the stream expands past
/// `max_output`, having allocated no more than that. The only other way in which the result
/// differs from the stream's own is that the allocator may refuse a buffer on the way.
pub fn decompress_zlib_to_vec(input: &[u8], max_output: usize) -> (result: Result<
    Vec<u8>,
    InflateError,
>)
    ensures
        match result {
            Ok(output) => stream::zlib(input@, max_output as nat, true) == Ok::<
                Seq<u8>,
                InflateError,
            >(output@),
            Err(error) => {
                ||| stream::zlib(input@, max_output as nat, true) == Err::<
                    Seq<u8>,
                    InflateError,
                >(error)
                ||| (error matches InflateError::OutOfMemory { bytes } && may_ask_for(
                    input@,
                    max_output as nat,
                    bytes as nat,
                ))
            },
        },
{
    // Deflate's best case is a little over 1000:1, so no first guess drawn from the input
    // length is safe; four times it settles ordinary data in a single pass, and the floor
    // keeps small streams from starting a doubling run at a handful of bytes.
    let mut capacity: usize = if input.len() > usize::MAX / 4 {
        usize::MAX
    } else {
        input.len() * 4
    };
    if capacity < 1024 {
        capacity = 1024;
    }
    if capacity > max_output {
        capacity = max_output;
    }
    let mut inflater = Inflater::new();
    let ghost mut k: nat = 0;
    loop
        invariant
            inflater.wf(),
            inflater.verifies(),
            capacity <= max_output,
            capacity == 0 ==> max_output == 0,
            capacity == capacity_at(input@.len(), max_output as nat, k),
            forall|j: nat|
                j < k ==> #[trigger] capacity_at(input@.len(), max_output as nat, j) < max_output
                    && stream::zlib(
                    input@,
                    capacity_at(input@.len(), max_output as nat, j),
                    true,
                ) == Err::<Seq<u8>, InflateError>(InflateError::OutputOverflow),
        decreases max_output - capacity,
    {
        if capacity > usize::MAX - OUTPUT_SLACK {
            assert(attempted(input@, max_output as nat, k, capacity as nat));
            assert(may_ask_for(input@, max_output as nat, capacity as nat));
            return Err(InflateError::OutOfMemory { bytes: capacity });
        }
        let request: usize = capacity + OUTPUT_SLACK;
        let mut output: Vec<u8> = match zeroed_vec(request) {
            Some(output) => output,
            None => {
                assert(attempted(input@, max_output as nat, k, request as nat));
                return Err(InflateError::OutOfMemory { bytes: request });
            },
        };
        let outcome: Result<usize, InflateError> = inflater.zlib_at_most(
            input,
            output.as_mut_slice(),
        );
        proof {
            if stream::zlib(input@, capacity as nat, true) != Err::<Seq<u8>, InflateError>(
                InflateError::OutputOverflow,
            ) {
                stream::law_larger_limit(input@, capacity as nat, max_output as nat, true);
            }
        }
        match outcome {
            Ok(written) => {
                output.truncate(written);
                return Ok(output);
            },
            Err(error) => {
                if error != InflateError::OutputOverflow || capacity >= max_output {
                    return Err(error);
                }
            },
        }
        capacity = if capacity > max_output / 2 {
            max_output
        } else {
            capacity * 2
        };
        proof {
            k = k + 1;
        }
    }
}

} // verus!
