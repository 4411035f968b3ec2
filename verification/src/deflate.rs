//! DEFLATE compression with the zlib framing PNG requires.
//!
//! The compressor codes literals and runs of zero bytes, and nothing else. There is no hash
//! table, no match finder, and no token buffer: each block is scanned to count its symbols
//! and scanned again to write them, so the data moves through cache twice and the only
//! memory touched besides the input is a Huffman code that fits in a few kilobytes.
//!
//! That is a deliberate limit rather than a missing feature. Zero runs are the form of
//! repetition filtered image data is actually full of - a flat region leaves a residual of
//! zero under any of the PNG filters - and finding them costs a sequential scan instead of a
//! random memory access per input byte.

use vstd::prelude::*;
use vstd::arithmetic::power2::*;
use vstd::arithmetic::div_mod::*;
use crate::adler32;
use crate::adler32::Adler32;
use crate::bits;
use crate::code;
use crate::encoding;
use crate::encoding::Token;
use crate::huffman::{canonical_codes, Builder};
use crate::roundtrip;
use crate::tables;
use crate::tables::{len_symbol, CLCL_ORDER, DIST_EXTRA, LEN_BASE, LEN_EXTRA};
use crate::tree;
use crate::walk;
use crate::walk::Stretch;

verus! {

/// Shortest and longest match this compressor will emit.
///
/// DEFLATE's own minimum is three, but a three-byte match saves nothing here: it costs a
/// length code plus a distance code where three literals would have cost three cheap ones.
const MIN_MATCH: usize = 4;

const MAX_MATCH: usize = 258;

/// Input bytes per block.
///
/// Small enough that both scans of a block hit the same cache lines, large enough that the
/// block header is a rounding error.
const RUN_BLOCK_BYTES: usize = 262144;

/// Blocks that may reuse the previous block's cost measurement before one is taken again.
const RUN_PROBE_INTERVAL: u32 = 8;

/// Shortest run of zeros worth coding as a match.
///
/// The first zero has nothing before it to copy from, so it stays a literal and the match
/// covers the rest; a match needs three bytes, so the run needs four.
const MIN_ZERO_RUN: usize = 4;

/// Literal/length alphabet size actually used (286 of the 288 encodable symbols).
const LITLEN_SYMBOLS: usize = 286;

const DIST_SYMBOLS: usize = 30;

const CLCL_SYMBOLS: usize = 19;

// ---------------------------------------------------------------------------------------
// Zero runs
// ---------------------------------------------------------------------------------------

/// What [`Runs::next`] hands to its consumer.
enum Item {
    /// Bytes to code one at a time, from `from` up to `to`.
    Literals { from: usize, to: usize },
    /// A run of `length` zeros to code as a match at distance one.
    ZeroRun { length: usize },
}

impl Item {
    /// The part of the block that an item stands for.
    spec fn stretch(self) -> Stretch {
        match self {
            Item::Literals { from, to } => Stretch::Literals { from: from as int, to: to as int },
            Item::ZeroRun { length } => Stretch::ZeroRun { length: length as nat },
        }
    }
}

/// The literal spans and zero runs of one block, in the order they must be coded.
///
/// Zeros dominate filtered image data: a flat region leaves a residual of zero under any of
/// the filters, and those regions are most of what makes an image compressible at all.
/// Finding them needs no hash table and no memory beyond the input itself, which is what
/// makes this compressor fast.
struct Runs<'a> {
    block: &'a [u8],
    pos: usize,
    /// Zeros of the run just found that are still to be handed out, after the first.
    pending: usize,
    done: bool,
    /// What was handed out so far.
    handed: Ghost<Seq<Stretch>>,
}

/// No run starts where one of four bytes is no zero.
proof fn lemma_no_run(block: Seq<u8>, i: int, j: int)
    requires
        0 <= i <= j < i + 4,
        j < block.len(),
        block[j] != 0,
    ensures
        !encoding::run_at(block, i),
{
    encoding::lemma_zero_run(block, i);
}

/// Without runs in between, bytes are literals.
proof fn lemma_span(block: Seq<u8>, from: int, to: int)
    requires
        0 <= from <= to <= block.len(),
        forall|k: int| from <= k < to ==> !#[trigger] encoding::run_at(block, k),
    ensures
        encoding::tokens(block, from) == encoding::literals(block.subrange(from, to))
            + encoding::tokens(block, to),
    decreases to - from,
{
    if from < to {
        lemma_span(block, from + 1, to);
        assert(!encoding::run_at(block, from));
        assert(seq![Token::Literal { byte: block[from] }] + encoding::literals(
            block.subrange(from + 1, to),
        ) =~= encoding::literals(block.subrange(from, to)));
        assert(encoding::tokens(block, from) =~= encoding::literals(block.subrange(from, to))
            + encoding::tokens(block, to));
    } else {
        assert(encoding::literals(block.subrange(from, to)) + encoding::tokens(block, to)
            =~= encoding::tokens(block, to));
    }
}

impl<'a> Runs<'a> {
    spec fn wf(&self) -> bool {
        &&& self.pos <= self.block@.len()
        &&& self.pending == 0 || self.pending >= 3
        &&& self.done ==> self.pending == 0
        &&& walk::all_tokens(self.block@, self.handed@) + self.rest() == encoding::tokens(
            self.block@,
            0,
        )
        &&& forall|i: int|
            0 <= i < self.handed@.len() ==> (#[trigger] self.handed@[i] matches Stretch::Literals {
                from,
                to,
            } ==> 0 <= from < to <= self.block@.len())
    }

    /// What is still to be handed out.
    spec fn rest(&self) -> Seq<Token> {
        encoding::pieces(self.pending as nat) + if self.done {
            Seq::empty()
        } else {
            encoding::tokens(self.block@, self.pos as int)
        }
    }

    fn new(block: &'a [u8]) -> (runs: Self)
        ensures
            runs.wf(),
            runs.block == block,
            runs.handed@ == Seq::<Stretch>::empty(),
            runs.rest() == encoding::tokens(block@, 0),
    {
        let runs = Self { block, pos: 0, pending: 0, done: false, handed: Ghost(Seq::empty()) };
        assert(runs.rest() =~= encoding::tokens(block@, 0));
        assert(walk::all_tokens(block@, runs.handed@) + runs.rest() =~= runs.rest());
        runs
    }

    /// The start of the first run worth a match from `from` on, or the end of the block.
    ///
    /// The search looks for four zeros in a row rather than for a single zero. Isolated zeros
    /// are everywhere in filtered image data - a constant alpha channel leaves one in every
    /// pixel - and stopping at each of them turns the scan into a chain of unpredictable
    /// branches. A byte that is no zero rules out every run that would have to cover it, so
    /// looking at one byte in four is enough to pass over data without runs.
    fn find(&self, from: usize) -> (start: usize)
        requires
            from <= self.block@.len(),
        ensures
            from <= start <= self.block@.len(),
            forall|k: int| from <= k < start ==> !#[trigger] encoding::run_at(self.block@, k),
            start < self.block@.len() ==> encoding::run_at(self.block@, start as int),
    {
        let block: &[u8] = self.block;
        let end: usize = block.len();
        let mut pos: usize = from;
        while end - pos >= 8
            invariant
                from <= pos <= end == block@.len(),
                block == self.block,
                forall|k: int| from <= k < pos ==> !#[trigger] encoding::run_at(block@, k),
            decreases end - pos,
        {
            if block[pos + 3] != 0 {
                proof {
                    assert forall|k: int| pos <= k < pos + 4 implies !#[trigger] encoding::run_at(
                        block@,
                        k,
                    ) by {
                        lemma_no_run(block@, k, pos + 3);
                    }
                }
                pos = pos + 4;
                continue;
            }
            // A zero: step back to where its run begins, at most to where the search stands.
            let mut start: usize = pos + 3;
            while start > pos && block[start - 1] == 0
                invariant
                    pos <= start <= pos + 3,
                    pos + 8 <= block@.len(),
                    forall|k: int| start <= k <= pos + 3 ==> #[trigger] block@[k] == 0,
                decreases start - pos,
            {
                start = start - 1;
            }
            proof {
                assert forall|k: int| pos <= k < start implies !#[trigger] encoding::run_at(
                    block@,
                    k,
                ) by {
                    lemma_no_run(block@, k, start - 1);
                }
            }
            let stop: usize = run_end(block, pos + 4);
            proof {
                assert(encoding::zero_run(block@, start as int) == stop - start) by {
                    lemma_run_is(block@, start as int, stop as int);
                }
            }
            if stop - start >= MIN_ZERO_RUN {
                if end - start >= 8 {
                    return start;
                }
                // The last few bytes are always literals: a run there could not be coded as a
                // match reaching back far enough to be worth the symbols.
                proof {
                    assert forall|k: int| start <= k < end implies !#[trigger] encoding::run_at(
                        block@,
                        k,
                    ) by {}
                }
                return end;
            }
            proof {
                assert forall|k: int| start <= k < stop implies !#[trigger] encoding::run_at(
                    block@,
                    k,
                ) by {
                    lemma_run_is(block@, k, stop as int);
                }
            }
            pos = stop;
        }
        proof {
            assert forall|k: int| pos <= k < end implies !#[trigger] encoding::run_at(block@, k) by {}
        }
        end
    }

    /// The next literal span or zero run.
    ///
    /// What was handed out by the time nothing is left covers the block.
    fn next(&mut self) -> (item: Option<Item>)
        requires
            old(self).wf(),
        ensures
            final(self).wf(),
            final(self).block == old(self).block,
            match item {
                None => {
                    &&& old(self).rest() == Seq::<Token>::empty()
                    &&& final(self).handed@ == old(self).handed@
                    &&& walk::handed_out(old(self).block@, old(self).handed@)
                    &&& walk::covers(old(self).block@, old(self).handed@)
                },
                Some(Item::Literals { from, to }) => from < to <= old(self).block@.len()
                    && old(self).rest() == encoding::literals(
                    old(self).block@.subrange(from as int, to as int),
                ) + final(self).rest(),
                Some(Item::ZeroRun { length }) => 3 <= length <= 258 && old(self).rest() == seq![
                    Token::Run { length: length as nat },
                ] + final(self).rest(),
            },
            item matches Some(item) ==> final(self).handed@ == old(self).handed@.push(
                item.stretch(),
            ),
    {
        match self.advance() {
            None => {
                proof {
                    let handed = self.handed@;
                    assert(walk::all_tokens(self.block@, handed) + old(self).rest()
                        =~= walk::all_tokens(self.block@, handed));
                    walk::law_walk_covers_the_block(self.block@, handed);
                }
                None
            },
            Some(item) => {
                proof {
                    walk::lemma_one_more(
                        self.block@,
                        self.handed@,
                        item.stretch(),
                        old(self).rest(),
                        self.rest(),
                    );
                }
                self.handed = Ghost(self.handed@.push(item.stretch()));
                Some(item)
            },
        }
    }

    /// Finds the next literal span or zero run.
    fn advance(&mut self) -> (item: Option<Item>)
        requires
            old(self).wf(),
        ensures
            final(self).pos <= final(self).block@.len(),
            final(self).pending == 0 || final(self).pending >= 3,
            final(self).done ==> final(self).pending == 0,
            final(self).block == old(self).block,
            final(self).handed == old(self).handed,
            match item {
                None => old(self).rest() == Seq::<Token>::empty() && final(self).rest()
                    == old(self).rest(),
                Some(Item::Literals { from, to }) => from < to <= old(self).block@.len()
                    && old(self).rest() == encoding::literals(
                    old(self).block@.subrange(from as int, to as int),
                ) + final(self).rest(),
                Some(Item::ZeroRun { length }) => 3 <= length <= 258 && old(self).rest() == seq![
                    Token::Run { length: length as nat },
                ] + final(self).rest(),
            },
    {
        let ghost all = self.rest();
        let ghost before = self.pending as nat;
        // A run longer than one match is handed out across several calls.
        if self.pending > 0 {
            let mut take: usize = if self.pending < MAX_MATCH {
                self.pending
            } else {
                MAX_MATCH
            };
            // Never leave a tail too short to code as a match of its own.
            if self.pending > take && self.pending - take < MIN_MATCH {
                take = take - MIN_MATCH;
            }
            self.pending = self.pending - take;
            proof {
                assert(take == encoding::piece(before));
                assert(all =~= seq![Token::Run { length: take as nat }] + self.rest());
            }
            return Some(Item::ZeroRun { length: take });
        }
        assert(all =~= if self.done {
            Seq::empty()
        } else {
            encoding::tokens(self.block@, self.pos as int)
        });
        if self.done {
            return None;
        }
        let from: usize = self.pos;
        let end: usize = self.block.len();
        let start: usize = self.find(from);
        proof {
            lemma_span(self.block@, from as int, start as int);
        }
        if start < end {
            let stop: usize = run_end(self.block, start);
            proof {
                encoding::lemma_zero_run(self.block@, start as int);
                lemma_run_is(self.block@, start as int, stop as int);
            }
            // The run's first zero becomes the literal that the match copies from, and the
            // rest are handed out as matches by the calls that follow.
            self.pending = stop - start - 1;
            self.pos = stop;
            proof {
                let block = self.block@;
                let n = encoding::zero_run(block, start as int);
                assert(n == stop - start);
                assert(encoding::literals(block.subrange(from as int, start as int)) + seq![
                    Token::Literal { byte: 0 },
                ] =~= encoding::literals(block.subrange(from as int, start + 1)));
                assert(all =~= encoding::literals(block.subrange(from as int, start + 1))
                    + self.rest());
            }
            return Some(Item::Literals { from, to: start + 1 });
        }
        self.done = true;
        self.pos = end;
        proof {
            assert(encoding::tokens(self.block@, end as int) =~= Seq::<Token>::empty());
            assert(self.rest() =~= Seq::<Token>::empty());
            assert(all =~= encoding::literals(self.block@.subrange(from as int, end as int))
                + self.rest());
        }
        if from < end {
            Some(Item::Literals { from, to: end })
        } else {
            None
        }
    }
}

/// A run of zeros is as long as the zeros go on.
proof fn lemma_run_is(block: Seq<u8>, start: int, stop: int)
    requires
        0 <= start <= stop <= block.len(),
        forall|k: int| start <= k < stop ==> #[trigger] block[k] == 0,
        stop < block.len() ==> block[stop] != 0,
    ensures
        encoding::zero_run(block, start) == stop - start,
    decreases stop - start,
{
    if start < stop {
        assert(block[start] == 0);
        lemma_run_is(block, start + 1, stop);
    }
}

/// The first position from `from` on that does not hold a zero, or the end of the block.
fn run_end(block: &[u8], from: usize) -> (stop: usize)
    requires
        from <= block@.len(),
    ensures
        from <= stop <= block@.len(),
        forall|k: int| from <= k < stop ==> #[trigger] block@[k] == 0,
        stop < block@.len() ==> block@[stop as int] != 0,
{
    let mut stop: usize = from;
    while stop < block.len() && block[stop] == 0
        invariant
            from <= stop <= block@.len(),
            forall|k: int| from <= k < stop ==> #[trigger] block@[k] == 0,
        decreases block.len() - stop,
    {
        stop = stop + 1;
    }
    stop
}

// ---------------------------------------------------------------------------------------
// Bit writer
// ---------------------------------------------------------------------------------------

/// Little-endian bit writer onto the end of a `Vec<u8>`.
///
/// Holds fewer than eight bits between calls.
#[derive(Clone, Copy, Debug)]
struct BitWriter {
    buffer: u64,
    nbits: u32,
}

impl BitWriter {
    spec fn wf(&self) -> bool {
        self.nbits < 8 && self.buffer < pow2(self.nbits as nat)
    }

    /// The bits that do not fill a byte yet.
    spec fn carry(&self) -> Seq<bool> {
        bits::lsb(self.buffer as nat, self.nbits as nat)
    }

    /// Everything written to `out`, with what does not fill a byte yet.
    spec fn written(&self, out: Seq<u8>) -> Seq<bool> {
        bits::bits_of(out) + self.carry()
    }

    /// How many bits were written.
    spec fn bit_position(&self, out: Seq<u8>) -> nat {
        self.written(out).len()
    }

    fn new() -> (writer: Self)
        ensures
            writer.wf(),
            writer.nbits == 0,
    {
        proof {
            bits::lemma_pow2_small();
        }
        Self { buffer: 0, nbits: 0 }
    }

    /// Appends the low `count` bits of `bits`.
    ///
    /// `count` may be up to 56: the buffer never holds more than seven bits on entry.
    fn write(&mut self, out: &mut Vec<u8>, bits: u64, count: u32)
        requires
            old(self).wf(),
            count <= 56,
            bits < pow2(count as nat),
        ensures
            final(self).wf(),
            final(self).written(final(out)@) == old(self).written(old(out)@) + bits::lsb(
                bits as nat,
                count as nat,
            ),
            final(self).nbits == (old(self).nbits + count) % 8,
    {
        let ghost target = self.written(out@) + bits::lsb(bits as nat, count as nat);
        let mut total: u32 = self.nbits + count;
        proof {
            lemma_join(self.buffer, self.nbits, bits, count);
        }
        let mut buffer: u64 = self.buffer + (bits << (self.nbits as u64));
        assert(bits::bits_of(out@) + bits::lsb(buffer as nat, total as nat) =~= target);
        while total >= 8
            invariant
                total <= 63,
                buffer < pow2(total as nat),
                bits::bits_of(out@) + bits::lsb(buffer as nat, total as nat) == target,
            decreases total,
        {
            let low: u8 = (buffer % 256) as u8;
            let ghost before = out@;
            let ghost rest = (total - 8) as nat;
            proof {
                bits::lemma_pow2_small();
                bits::lemma_lsb_concat(low as nat, 8, (buffer / 256) as nat, rest);
                bits::lemma_bits_push(out@, low);
                lemma_pow2_adds(8, rest);
                assert(buffer / 256 < pow2(rest));
            }
            out.push(low);
            buffer = buffer / 256;
            total = total - 8;
            proof {
                assert(bits::bits_of(before) + (bits::lsb(low as nat, 8) + bits::lsb(
                    buffer as nat,
                    rest,
                )) =~= bits::bits_of(out@) + bits::lsb(buffer as nat, rest));
            }
        }
        self.buffer = buffer;
        self.nbits = total;
        assert(target.len() == 8 * out@.len() + total);
    }

    /// Pads to a byte boundary with zeros.
    fn align(&mut self, out: &mut Vec<u8>)
        requires
            old(self).wf(),
        ensures
            final(self).wf(),
            final(self).nbits == 0,
            bits::bits_of(final(out)@) == old(self).written(old(out)@) + encoding::zero_bits(
                bits::padding(old(self).nbits as int) as nat,
            ),
    {
        let ghost before = self.written(out@);
        if self.nbits > 0 {
            let count: u32 = 8 - self.nbits;
            proof {
                lemma_pow2_pos(count as nat);
                lemma_zero_lsb(count as nat);
            }
            self.write(out, 0, count);
            proof {
                assert(self.written(out@).len() == before.len() + count);
                assert(self.written(out@).len() == 8 * out@.len() + self.nbits);
                assert(before.len() % 8 == old(self).nbits);
            }
        }
        proof {
            bits::lemma_pow2_small();
            assert(self.nbits == 0);
            assert(self.carry() =~= Seq::<bool>::empty());
            assert(bits::bits_of(out@) =~= self.written(out@));
            if old(self).nbits == 0 {
                assert(before + encoding::zero_bits(0) =~= before);
            }
        }
    }
}

/// Bits put above the ones that are held.
proof fn lemma_join(held: u64, n: u32, bits: u64, count: u32)
    requires
        n < 8,
        held < pow2(n as nat),
        count <= 56,
        bits < pow2(count as nat),
    ensures
        held + (bits << (n as u64)) < pow2((n + count) as nat),
        held + (bits << (n as u64)) <= u64::MAX,
        bits::lsb((held + (bits << (n as u64))) as nat, (n + count) as nat) == bits::lsb(
            held as nat,
            n as nat,
        ) + bits::lsb(bits as nat, count as nat),
{
    let m = pow2(n as nat);
    let c = pow2(count as nat);
    lemma_pow2_adds(n as nat, count as nat);
    bits::lemma_pow2_monotonic((n + count) as nat, 63);
    lemma2_to64_rest();
    let lo = held as nat;
    let hi = bits as nat;
    assert(lo + m * hi < m * c) by (nonlinear_arith)
        requires
            lo < m,
            hi < c,
    ;
    assert(m * hi == hi * m) by (nonlinear_arith);
    vstd::bits::lemma_u64_shl_is_mul(bits, n as u64);
    bits::lemma_lsb_concat(lo, n as nat, hi, count as nat);
}

/// Zero in any number of bits.
proof fn lemma_zero_lsb(n: nat)
    ensures
        bits::lsb(0, n) == encoding::zero_bits(n),
{
    assert forall|i: int| 0 <= i < n implies bits::lsb(0, n)[i] == false by {
        lemma_pow2_pos(i as nat);
        lemma_div_basics(pow2(i as nat) as int);
    }
    assert(bits::lsb(0, n) =~= encoding::zero_bits(n));
}

/// Two numbers as one, the second behind the first.
fn join(low: u64, low_bits: u32, high: u64, high_bits: u32) -> (both: u64)
    requires
        low_bits + high_bits <= 56,
        low < pow2(low_bits as nat),
        high < pow2(high_bits as nat),
    ensures
        both < pow2((low_bits + high_bits) as nat),
        bits::lsb(both as nat, (low_bits + high_bits) as nat) == bits::lsb(
            low as nat,
            low_bits as nat,
        ) + bits::lsb(high as nat, high_bits as nat),
{
    proof {
        let m = pow2(low_bits as nat);
        let c = pow2(high_bits as nat);
        lemma_pow2_adds(low_bits as nat, high_bits as nat);
        bits::lemma_pow2_monotonic(low_bits as nat + high_bits as nat, 63);
        lemma2_to64_rest();
        assert(low + m * high < m * c) by (nonlinear_arith)
            requires
                low < m,
                high < c,
        ;
        assert(m * high == high * m) by (nonlinear_arith);
        vstd::bits::lemma_u64_shl_is_mul(high, low_bits as u64);
        bits::lemma_lsb_concat(low as nat, low_bits as nat, high as nat, high_bits as nat);
    }
    low + (high << (low_bits as u64))
}

// ---------------------------------------------------------------------------------------
// Counting
// ---------------------------------------------------------------------------------------

/// Tokens of a literal span with what follows: the first one, and the ones behind it.
proof fn lemma_span_step(block: Seq<u8>, i: int, to: int, after: Seq<Token>)
    requires
        0 <= i < to <= block.len(),
    ensures
        ({
            let all = encoding::literals(block.subrange(i, to)) + after;
            &&& all.len() > 0
            &&& all[0] == (Token::Literal { byte: block[i] })
            &&& all.skip(1) == encoding::literals(block.subrange(i + 1, to)) + after
            &&& all.len() == (to - i) + after.len()
        }),
{
    let all = encoding::literals(block.subrange(i, to)) + after;
    assert(all.skip(1) =~= encoding::literals(block.subrange(i + 1, to)) + after);
}

/// Tokens of a match with what follows.
proof fn lemma_run_step(length: nat, after: Seq<Token>)
    ensures
        ({
            let all = seq![Token::Run { length }] + after;
            &&& all.len() == 1 + after.len()
            &&& all[0] == (Token::Run { length })
            &&& all.skip(1) == after
        }),
{
    let all = seq![Token::Run { length }] + after;
    assert(all.skip(1) =~= after);
}

/// Counts the symbols of a block, its end included.
fn count_runs(block: &[u8], litlen_freq: &mut [u32; 286], dist_freq: &mut [u32; 30])
    requires
        block@.len() <= encoding::block_bytes(),
    ensures
        final(litlen_freq)@ == encoding::block_litlen(block@),
        final(dist_freq)@ == encoding::block_dist(block@),
{
    *litlen_freq = [0; 286];
    *dist_freq = [0; 30];
    let ghost none = Seq::new(286, |s: int| 0u32);
    let ghost tokens = encoding::tokens(block@, 0);
    let ghost total = encoding::litlen_counts(tokens, none);
    let ghost mut done: int = 0;
    let mut matched: u32 = 0;
    let mut runs = Runs::new(block);
    proof {
        assert(litlen_freq@ =~= none);
        roundtrip::lemma_tokens_len(block@, 0);
        roundtrip::lemma_expand_tokens(Seq::empty(), block@, 0);
    }
    loop
        invariant_except_break
            total == encoding::litlen_counts(runs.rest(), litlen_freq@),
            encoding::run_count(tokens) == matched + encoding::run_count(runs.rest()),
            done + runs.rest().len() == tokens.len(),
        invariant
            runs.wf(),
            runs.block == block,
            block@.len() <= encoding::block_bytes(),
            tokens.len() <= block@.len(),
            0 <= done <= tokens.len(),
            matched <= done,
            forall|s: int| 0 <= s < 286 ==> #[trigger] litlen_freq@[s] <= done,
            dist_freq@ == Seq::new(30, |s: int| 0u32),
        ensures
            total == litlen_freq@,
            encoding::run_count(tokens) == matched,
        decreases tokens.len() - done,
    {
        let ghost rest = runs.rest();
        match runs.next() {
            None => {
                assert(rest.len() == 0);
                break;
            },
            Some(Item::Literals { from, to }) => {
                let ghost after = runs.rest();
                let mut i: usize = from;
                while i < to
                    invariant
                        from <= i <= to <= block@.len(),
                        block@.len() <= encoding::block_bytes(),
                        tokens.len() <= block@.len(),
                        0 <= done,
                        done + (to - i) + after.len() == tokens.len(),
                        total == encoding::litlen_counts(
                            encoding::literals(block@.subrange(i as int, to as int)) + after,
                            litlen_freq@,
                        ),
                        encoding::run_count(tokens) == matched + encoding::run_count(
                            encoding::literals(block@.subrange(i as int, to as int)) + after,
                        ),
                        matched <= done,
                        forall|s: int| 0 <= s < 286 ==> #[trigger] litlen_freq@[s] <= done,
                    decreases to - i,
                {
                    proof {
                        lemma_span_step(block@, i as int, to as int, after);
                        done = done + 1;
                    }
                    let byte: usize = block[i] as usize;
                    litlen_freq[byte] = litlen_freq[byte] + 1;
                    i = i + 1;
                }
                assert(encoding::literals(block@.subrange(i as int, to as int)) + after =~= after);
            },
            Some(Item::ZeroRun { length }) => {
                proof {
                    lemma_run_step(length as nat, runs.rest());
                    done = done + 1;
                }
                let symbol: usize = 257 + len_symbol(length as u16) as usize;
                litlen_freq[symbol] = litlen_freq[symbol] + 1;
                matched = matched + 1;
            },
        }
    }
    assert(litlen_freq@[256] <= done);
    litlen_freq[256] = litlen_freq[256] + 1;
    dist_freq[0] = matched;
    assert(dist_freq@ =~= encoding::block_dist(block@));
}

// ---------------------------------------------------------------------------------------
// Compressor
// ---------------------------------------------------------------------------------------

/// A reusable DEFLATE compressor.
///
/// Holds the Huffman tables and header scratch between calls, so compressing a second buffer
/// allocates nothing for them.
#[derive(Debug)]
pub struct Deflater {
    litlen_lengths: [u8; 286],
    litlen_codes: [u16; 286],
    dist_lengths: [u8; 30],
    dist_codes: [u16; 30],
    builder: Builder,
    /// Run-length encoded code lengths for the block header, as `(symbol, extra bits, extra
    /// value)`.
    header_symbols: Vec<(u8, u8, u8)>,
    clcl_freq: [u32; 19],
    clcl_lengths: [u8; 19],
    clcl_codes: [u16; 19],
}

impl Default for Deflater {
    fn default() -> (deflater: Self)
        ensures
            deflater.blank(),
    {
        Self::new()
    }
}

/// Index of the last symbol with a non-zero code length.
fn last_used(lengths: &[u8]) -> (last: usize)
    ensures
        last == encoding::last_used(lengths@, lengths@.len()),
{
    let mut i: usize = lengths.len();
    while i > 0
        invariant
            i <= lengths@.len(),
            encoding::last_used(lengths@, lengths@.len()) == encoding::last_used(lengths@, i as nat),
        decreases i,
    {
        if lengths[i - 1] != 0 {
            return i - 1;
        }
        i = i - 1;
    }
    0
}

/// Number of code length code lengths that must be transmitted.
///
/// The trailing entries of the fixed transmission order can be dropped when they are zero.
fn clcl_count(lengths: &[u8; 19]) -> (count: usize)
    ensures
        count == encoding::clcl_count(lengths@, 19),
        4 <= count <= 19,
{
    let mut count: usize = CLCL_SYMBOLS;
    proof {
        tables::lemma_clcl_order();
    }
    while count > 4 && lengths[CLCL_ORDER[count - 1] as usize] == 0
        invariant
            4 <= count <= 19,
            encoding::clcl_count(lengths@, 19) == encoding::clcl_count(lengths@, count as nat),
            forall|i: int| 0 <= i < 19 ==> 0 <= #[trigger] CLCL_ORDER@[i] < 19,
        decreases count,
    {
        count = count - 1;
    }
    count
}

impl Deflater {
    /// Whether the tables are empty: no symbol of any alphabet has a codeword, and no header is
    /// in place.
    pub closed spec fn blank(&self) -> bool {
        &&& self.litlen_lengths@ == Seq::new(286, |s: int| 0u8)
        &&& self.litlen_codes@ == Seq::new(286, |s: int| 0u16)
        &&& self.dist_lengths@ == Seq::new(30, |s: int| 0u8)
        &&& self.dist_codes@ == Seq::new(30, |s: int| 0u16)
        &&& self.builder.blank()
        &&& self.header_symbols@ == Seq::<(u8, u8, u8)>::empty()
        &&& self.clcl_freq@ == Seq::new(19, |s: int| 0u32)
        &&& self.clcl_lengths@ == Seq::new(19, |s: int| 0u8)
        &&& self.clcl_codes@ == Seq::new(19, |s: int| 0u16)
    }

    /// A compressor with empty tables, ready for its first stream.
    pub fn new() -> (deflater: Self)
        ensures
            deflater.blank(),
    {
        let deflater = Self {
            litlen_lengths: [0; 286],
            litlen_codes: [0; 286],
            dist_lengths: [0; 30],
            dist_codes: [0; 30],
            builder: Builder::new(),
            header_symbols: Vec::with_capacity(320),
            clcl_freq: [0; 19],
            clcl_lengths: [0; 19],
            clcl_codes: [0; 19],
        };
        assert(deflater.litlen_lengths@ =~= Seq::new(286, |s: int| 0u8));
        assert(deflater.litlen_codes@ =~= Seq::new(286, |s: int| 0u16));
        assert(deflater.dist_lengths@ =~= Seq::new(30, |s: int| 0u8));
        assert(deflater.dist_codes@ =~= Seq::new(30, |s: int| 0u16));
        assert(deflater.clcl_freq@ =~= Seq::new(19, |s: int| 0u32));
        assert(deflater.clcl_lengths@ =~= Seq::new(19, |s: int| 0u8));
        assert(deflater.clcl_codes@ =~= Seq::new(19, |s: int| 0u16));
        deflater
    }

    /// Whether the codes in place can write a block.
    spec fn ready(&self) -> bool {
        &&& roundtrip::writable(self.litlen_lengths@, self.dist_lengths@)
        &&& forall|s: int| 0 <= s < 286 ==> #[trigger] self.litlen_lengths@[s] <= 12
        &&& forall|s: int| 0 <= s < 30 ==> #[trigger] self.dist_lengths@[s] <= 12
    }

    /// Whether the header scratch belongs to the codes in place.
    spec fn headed(&self) -> bool {
        &&& self.header_symbols@ == encoding::run_lengths(
            encoding::combined(self.litlen_lengths@, self.dist_lengths@),
            0,
        )
        &&& self.clcl_lengths@ == encoding::header_clcl(self.litlen_lengths@, self.dist_lengths@)
    }

    /// The bits that a header for the codes in place takes.
    spec fn header_len(&self) -> nat {
        encoding::header_bits(self.litlen_lengths@, self.dist_lengths@, false).len()
    }

    /// Fits both codes to the given frequencies.
    ///
    /// Twelve-bit codes let four literals be packed into one write of the bit buffer instead
    /// of three, which is most of the point of this compressor. The ceiling costs a fraction
    /// of a percent against the fifteen bits DEFLATE allows.
    fn fit_codes(&mut self, litlen_freq: &[u32; 286], dist_freq: &[u32; 30])
        requires
            tree::ranked(litlen_freq@, 286).len() <= pow2(12),
            tree::ranked(dist_freq@, 30).len() <= pow2(12),
        ensures
            final(self).litlen_lengths@ == tree::code_lengths(litlen_freq@, 12),
            final(self).dist_lengths@ == tree::code_lengths(dist_freq@, 12),
    {
        self.builder.code_lengths(litlen_freq, &mut self.litlen_lengths, 12);
        self.builder.code_lengths(dist_freq, &mut self.dist_lengths, 12);
        proof {
            assert(self.litlen_lengths@.take(286) =~= self.litlen_lengths@);
            assert(self.dist_lengths@.take(30) =~= self.dist_lengths@);
        }
    }

    /// Run-length encodes both code length tables into `header_symbols` and returns the
    /// number of bits the resulting header will occupy.
    fn build_header(&mut self) -> (bits: u64)
        requires
            old(self).ready(),
        ensures
            final(self).ready(),
            final(self).litlen_lengths == old(self).litlen_lengths,
            final(self).dist_lengths == old(self).dist_lengths,
            final(self).headed(),
            bits == final(self).header_len(),
            bits <= 10000,
    {
        let ghost ll = self.litlen_lengths@;
        let ghost dl = self.dist_lengths@;
        proof {
            roundtrip::lemma_header_parts(ll, dl);
        }
        let mut hlit: usize = last_used(&self.litlen_lengths);
        if hlit < 256 {
            hlit = 256;
        }
        hlit = hlit + 1;
        let hdist: usize = last_used(&self.dist_lengths) + 1;
        let mut lengths: Vec<u8> = Vec::with_capacity(hlit + hdist);
        lengths.extend_from_slice(&self.litlen_lengths[0..hlit]);
        lengths.extend_from_slice(&self.dist_lengths[0..hdist]);
        assert(lengths@ =~= encoding::combined(ll, dl));
        self.encode_lengths(&lengths);

        // The code length alphabet is itself Huffman coded, with a seven-bit ceiling.
        proof {
            bits::lemma_pow2_small();
            assert(self.clcl_freq@.len() == 19);
        }
        self.builder.code_lengths(&self.clcl_freq, &mut self.clcl_lengths, 7);
        assert(self.clcl_lengths@.take(19) =~= self.clcl_lengths@);

        let hclen: usize = clcl_count(&self.clcl_lengths);
        let ghost cl = self.clcl_lengths@;
        let ghost symbols = self.header_symbols@;
        let mut size: u64 = 3 + 5 + 5 + 4 + 3 * hclen as u64;
        let ghost fixed = size;
        let mut i: usize = 0;
        assert(symbols.take(0) =~= Seq::<(u8, u8, u8)>::empty());
        while i < self.header_symbols.len()
            invariant
                i <= self.header_symbols@.len() <= 316,
                self.ready(),
                self.litlen_lengths == old(self).litlen_lengths,
                self.dist_lengths == old(self).dist_lengths,
                self.headed(),
                symbols == self.header_symbols@,
                cl == self.clcl_lengths@,
                cl.len() == 19,
                forall|t: int| 0 <= t < 19 ==> #[trigger] cl[t] <= 7,
                roundtrip::all_proper(symbols),
                fixed <= 74,
                size == fixed + encoding::length_symbol_bits(cl, symbols.take(i as int)).len(),
                size <= fixed + 14 * i,
            decreases self.header_symbols.len() - i,
        {
            let (symbol, extra_bits, _): (u8, u8, u8) = self.header_symbols[i];
            proof {
                let part = symbols.take(i + 1);
                assert(part.drop_last() =~= symbols.take(i as int));
                assert(part.last() == symbols[i as int]);
                assert(roundtrip::proper(symbols[i as int]));
            }
            size = size + (self.clcl_lengths[symbol as usize] as u64 + extra_bits as u64);
            i = i + 1;
        }
        proof {
            assert(symbols.take(i as int) =~= symbols);
            roundtrip::lemma_clcl_bits_len(cl, hclen as nat);
        }
        size
    }

    /// Run-length encodes `lengths` into `header_symbols`, and counts the symbols.
    fn encode_lengths(&mut self, lengths: &[u8])
        requires
            lengths@.len() <= 316,
            forall|k: int| 0 <= k < lengths@.len() ==> #[trigger] lengths@[k] < 16,
        ensures
            final(self).litlen_lengths == old(self).litlen_lengths,
            final(self).dist_lengths == old(self).dist_lengths,
            final(self).header_symbols@ == encoding::run_lengths(lengths@, 0),
            final(self).clcl_freq@ == encoding::clcl_counts(final(self).header_symbols@),
    {
        self.header_symbols.clear();
        self.clcl_freq = [0; 19];
        let ghost target = encoding::run_lengths(lengths@, 0);
        proof {
            roundtrip::lemma_run_lengths(lengths@, 0);
            assert(self.clcl_freq@ =~= encoding::clcl_counts(self.header_symbols@));
            assert(target =~= self.header_symbols@ + target);
        }
        let mut i: usize = 0;
        while i < lengths.len()
            invariant
                i <= lengths@.len() <= 316,
                forall|k: int| 0 <= k < lengths@.len() ==> #[trigger] lengths@[k] < 16,
                self.litlen_lengths == old(self).litlen_lengths,
                self.dist_lengths == old(self).dist_lengths,
                self.clcl_freq@ == encoding::clcl_counts(self.header_symbols@),
                target == self.header_symbols@ + encoding::run_lengths(lengths@, i as int),
                target.len() <= 316,
                roundtrip::all_proper(target),
            decreases lengths.len() - i,
        {
            let length: u8 = lengths[i];
            let mut run: usize = 1;
            while i + run < lengths.len() && lengths[i + run] == length
                invariant
                    i < lengths@.len() <= 316,
                    1 <= run,
                    i + run <= lengths@.len(),
                    length == lengths@[i as int],
                    encoding::same_run(lengths@, i + 1, length) == (run - 1) + encoding::same_run(
                        lengths@,
                        i + run,
                        length,
                    ),
                decreases lengths.len() - i - run,
            {
                run = run + 1;
            }
            let ghost before = self.header_symbols@;
            let ghost rest = encoding::run_lengths(lengths@, i + run);
            let next: usize = i + run;
            if length == 0 {
                // Zero runs have their own two symbols, covering 3..=10 and 11..=138.
                assert(target =~= before + encoding::zero_groups(run as nat) + rest);
                while run >= 3
                    invariant
                        next <= 316,
                        run <= 316,
                        self.litlen_lengths == old(self).litlen_lengths,
                        self.dist_lengths == old(self).dist_lengths,
                        self.clcl_freq@ == encoding::clcl_counts(self.header_symbols@),
                        target == self.header_symbols@ + encoding::zero_groups(run as nat) + rest,
                        target.len() <= 316,
                        roundtrip::all_proper(target),
                    decreases run,
                {
                    let ghost so_far = self.header_symbols@;
                    let ghost groups = encoding::zero_groups(run as nat);
                    let take: usize = if run < 138 {
                        run
                    } else {
                        138
                    };
                    proof {
                        assert(target[so_far.len() as int] == groups[0]);
                        lemma_prefix_proper(target, so_far);
                    }
                    if take >= 11 {
                        self.push_header(18, 7, (take - 11) as u8);
                    } else {
                        self.push_header(17, 3, (take - 3) as u8);
                    }
                    run = run - take;
                    proof {
                        assert(self.header_symbols@ == so_far.push(groups[0]));
                        assert(target =~= self.header_symbols@ + encoding::zero_groups(run as nat)
                            + rest);
                    }
                }
            } else {
                // The length itself, then repeats of it in groups of 3..=6.
                assert(target =~= before + seq![(length, 0u8, 0u8)] + encoding::repeat_groups(
                    length,
                    (run - 1) as nat,
                ) + rest);
                proof {
                    assert(target[before.len() as int] == (length, 0u8, 0u8));
                    lemma_prefix_proper(target, before);
                }
                self.push_header(length, 0, 0);
                run = run - 1;
                assert(target =~= self.header_symbols@ + encoding::repeat_groups(
                    length,
                    run as nat,
                ) + rest);
                while run >= 3
                    invariant
                        next <= 316,
                        run <= 316,
                        1 <= length < 16,
                        self.litlen_lengths == old(self).litlen_lengths,
                        self.dist_lengths == old(self).dist_lengths,
                        self.clcl_freq@ == encoding::clcl_counts(self.header_symbols@),
                        target == self.header_symbols@ + encoding::repeat_groups(
                            length,
                            run as nat,
                        ) + rest,
                        target.len() <= 316,
                        roundtrip::all_proper(target),
                    decreases run,
                {
                    let ghost so_far = self.header_symbols@;
                    let ghost groups = encoding::repeat_groups(length, run as nat);
                    let take: usize = if run < 6 {
                        run
                    } else {
                        6
                    };
                    proof {
                        assert(target[so_far.len() as int] == groups[0]);
                        lemma_prefix_proper(target, so_far);
                    }
                    self.push_header(16, 2, (take - 3) as u8);
                    run = run - take;
                    proof {
                        assert(self.header_symbols@ == so_far.push(groups[0]));
                        assert(target =~= self.header_symbols@ + encoding::repeat_groups(
                            length,
                            run as nat,
                        ) + rest);
                    }
                }
            }
            // What is too short for a group is given one at a time.
            assert(target =~= self.header_symbols@ + Seq::new(
                run as nat,
                |k: int| (length, 0u8, 0u8),
            ) + rest);
            while run > 0
                invariant
                    length < 16,
                    self.litlen_lengths == old(self).litlen_lengths,
                    self.dist_lengths == old(self).dist_lengths,
                    self.clcl_freq@ == encoding::clcl_counts(self.header_symbols@),
                    target == self.header_symbols@ + Seq::new(
                        run as nat,
                        |k: int| (length, 0u8, 0u8),
                    ) + rest,
                    target.len() <= 316,
                    roundtrip::all_proper(target),
                decreases run,
            {
                let ghost so_far = self.header_symbols@;
                proof {
                    assert(target[so_far.len() as int] == (length, 0u8, 0u8));
                    lemma_prefix_proper(target, so_far);
                }
                self.push_header(length, 0, 0);
                run = run - 1;
                assert(target =~= self.header_symbols@ + Seq::new(
                    run as nat,
                    |k: int| (length, 0u8, 0u8),
                ) + rest);
            }
            assert(target =~= self.header_symbols@ + rest);
            i = next;
        }
        assert(target =~= self.header_symbols@);
    }

    /// Bits the counted symbols will occupy under the code just built.
    fn token_bits(&self, litlen_freq: &[u32; 286], dist_freq: &[u32; 30]) -> (bits: u64)
        requires
            self.ready(),
            forall|s: int| 0 <= s < 286 ==> #[trigger] litlen_freq@[s] <= 300000,
            forall|s: int| 0 <= s < 30 ==> #[trigger] dist_freq@[s] <= 300000,
        ensures
            bits == encoding::token_cost(
                litlen_freq@,
                dist_freq@,
                self.litlen_lengths@,
                self.dist_lengths@,
            ),
            bits <= 0x1_0000_0000,
    {
        let mut total: u64 = 0;
        let mut symbol: usize = 0;
        while symbol < LITLEN_SYMBOLS
            invariant
                symbol <= 286,
                self.ready(),
                forall|s: int| 0 <= s < 286 ==> #[trigger] litlen_freq@[s] <= 300000,
                total == encoding::litlen_cost(litlen_freq@, self.litlen_lengths@, symbol as nat),
                total <= 3600000 * symbol,
            decreases LITLEN_SYMBOLS - symbol,
        {
            proof {
                let f = litlen_freq@[symbol as int];
                let l = self.litlen_lengths@[symbol as int];
                assert(f * l <= 3600000) by (nonlinear_arith)
                    requires
                        f <= 300000,
                        l <= 12,
                ;
            }
            total = total + litlen_freq[symbol] as u64 * self.litlen_lengths[symbol] as u64;
            symbol = symbol + 1;
        }
        let mut extra: u64 = 0;
        let mut index: usize = 0;
        proof {
            tables::lemma_len_range();
            tables::lemma_dist_range();
        }
        while index < 29
            invariant
                index <= 29,
                forall|s: int| 0 <= s < 286 ==> #[trigger] litlen_freq@[s] <= 300000,
                forall|i: int| 0 <= i < 29 ==> #[trigger] LEN_EXTRA@[i] <= 5,
                extra == encoding::extra_cost(litlen_freq@, index as nat),
                extra <= 1500000 * index,
            decreases 29 - index,
        {
            proof {
                let f = litlen_freq@[257 + index];
                let l = LEN_EXTRA@[index as int];
                assert(f * l <= 1500000) by (nonlinear_arith)
                    requires
                        f <= 300000,
                        l <= 5,
                ;
            }
            extra = extra + litlen_freq[257 + index] as u64 * LEN_EXTRA[index] as u64;
            index = index + 1;
        }
        let mut far: u64 = 0;
        let mut place: usize = 0;
        while place < DIST_SYMBOLS
            invariant
                place <= 30,
                self.ready(),
                forall|s: int| 0 <= s < 30 ==> #[trigger] dist_freq@[s] <= 300000,
                forall|i: int| 0 <= i < 30 ==> #[trigger] DIST_EXTRA@[i] <= 13,
                far == encoding::dist_cost(dist_freq@, self.dist_lengths@, place as nat),
                far <= 7500000 * place,
            decreases DIST_SYMBOLS - place,
        {
            proof {
                let f = dist_freq@[place as int];
                let l = self.dist_lengths@[place as int] + DIST_EXTRA@[place as int];
                assert(self.dist_lengths@[place as int] <= 12);
                assert(f * l <= 7500000) by (nonlinear_arith)
                    requires
                        f <= 300000,
                        0 <= l <= 25,
                ;
            }
            far = far + dist_freq[place] as u64 * (self.dist_lengths[place] as u64
                + DIST_EXTRA[place] as u64);
            place = place + 1;
        }
        total + extra + far
    }

    /// Writes a dynamic block's opening bits: the block type, the two alphabet sizes, and
    /// the code that describes the two code length tables. They are as many as
    /// [`Deflater::build_header`] reported, whether or not the block is the last.
    #[verifier::rlimit(30)]
    fn write_block_header(&mut self, writer: &mut BitWriter, out: &mut Vec<u8>, last: bool)
        requires
            old(self).ready(),
            old(self).headed(),
            old(writer).wf(),
        ensures
            final(self).litlen_lengths == old(self).litlen_lengths,
            final(self).dist_lengths == old(self).dist_lengths,
            final(self).litlen_codes == old(self).litlen_codes,
            final(self).dist_codes == old(self).dist_codes,
            final(writer).wf(),
            final(writer).written(final(out)@) == old(writer).written(old(out)@)
                + encoding::header_bits(
                old(self).litlen_lengths@,
                old(self).dist_lengths@,
                last,
            ),
            final(writer).bit_position(final(out)@) == old(writer).bit_position(old(out)@)
                + old(self).header_len(),
    {
        let ghost ll = self.litlen_lengths@;
        let ghost dl = self.dist_lengths@;
        let ghost cl = self.clcl_lengths@;
        let ghost symbols = self.header_symbols@;
        let ghost start = writer.written(out@);
        proof {
            roundtrip::lemma_header_parts(ll, dl);
            bits::lemma_pow2_small();
        }
        canonical_codes(&self.clcl_lengths, &mut self.clcl_codes);
        let mut hlit: usize = last_used(&self.litlen_lengths);
        if hlit < 256 {
            hlit = 256;
        }
        hlit = hlit + 1;
        let hdist: usize = last_used(&self.dist_lengths) + 1;
        let hclen: usize = clcl_count(&self.clcl_lengths);
        proof {
            lemma_lsb_bool(last);
        }
        writer.write(
            out,
            if last {
                1
            } else {
                0
            },
            1,
        );
        writer.write(out, 2, 2);
        writer.write(out, (hlit - 257) as u64, 5);
        writer.write(out, (hdist - 1) as u64, 5);
        writer.write(out, (hclen - 4) as u64, 4);
        let ghost sizes = seq![last] + bits::lsb(2, 2) + bits::lsb((hlit - 257) as nat, 5)
            + bits::lsb((hdist - 1) as nat, 5) + bits::lsb((hclen - 4) as nat, 4);
        assert(writer.written(out@) =~= start + sizes);
        let mut k: usize = 0;
        assert(start + sizes =~= start + sizes + encoding::clcl_bits(cl, 0));
        while k < hclen
            invariant
                k <= hclen <= 19,
                writer.wf(),
                cl == self.clcl_lengths@,
                forall|t: int| 0 <= t < 19 ==> #[trigger] cl[t] <= 7,
                writer.written(out@) == start + sizes + encoding::clcl_bits(cl, k as nat),
            decreases hclen - k,
        {
            proof {
                tables::lemma_clcl_order();
                bits::lemma_pow2_small();
            }
            let symbol: usize = CLCL_ORDER[k] as usize;
            writer.write(out, self.clcl_lengths[symbol] as u64, 3);
            k = k + 1;
            assert(writer.written(out@) =~= start + sizes + encoding::clcl_bits(cl, k as nat));
        }
        let ghost opening = sizes + encoding::clcl_bits(cl, hclen as nat);
        let mut i: usize = 0;
        proof {
            assert(symbols.take(0) =~= Seq::<(u8, u8, u8)>::empty());
            assert(start + sizes + encoding::clcl_bits(cl, hclen as nat) =~= start + opening
                + encoding::length_symbol_bits(cl, symbols.take(0)));
        }
        while i < self.header_symbols.len()
            invariant
                i <= self.header_symbols@.len(),
                writer.wf(),
                cl == self.clcl_lengths@,
                cl.len() == 19,
                code::complete(cl),
                symbols == self.header_symbols@,
                roundtrip::all_proper(symbols),
                forall|t: int| 0 <= t < 19 ==> #[trigger] cl[t] <= 7,
                forall|t: int| 0 <= t < 19 ==> #[trigger] self.clcl_codes@[t] == code::written(cl, t),
                forall|j: int|
                    0 <= j < symbols.len() ==> code::has_code(cl, (#[trigger] symbols[j]).0 as int),
                writer.written(out@) == start + opening + encoding::length_symbol_bits(
                    cl,
                    symbols.take(i as int),
                ),
            decreases self.header_symbols.len() - i,
        {
            let (symbol, extra_bits, extra_value): (u8, u8, u8) = self.header_symbols[i];
            let code_bits: u32 = self.clcl_lengths[symbol as usize] as u32;
            let word: u64 = self.clcl_codes[symbol as usize] as u64;
            proof {
                assert(roundtrip::proper(symbols[i as int]));
                assert(code::has_code(cl, symbols[i as int].0 as int));
                lemma_written_bound(cl, symbol as int);
                bits::lemma_pow2_small();
                let part = symbols.take(i + 1);
                assert(part.drop_last() =~= symbols.take(i as int));
                assert(part.last() == symbols[i as int]);
            }
            let both: u64 = join(word, code_bits, extra_value as u64, extra_bits as u32);
            writer.write(out, both, code_bits + extra_bits as u32);
            i = i + 1;
            assert(writer.written(out@) =~= start + opening + encoding::length_symbol_bits(
                cl,
                symbols.take(i as int),
            ));
        }
        proof {
            assert(symbols.take(i as int) =~= symbols);
            assert(start + opening + encoding::length_symbol_bits(cl, symbols) =~= start
                + encoding::header_bits(ll, dl, last));
        }
    }

    /// Emits a block with the codes in place, and counts its symbols on the way for the block
    /// after.
    fn emit_runs(
        &mut self,
        writer: &mut BitWriter,
        out: &mut Vec<u8>,
        block: &[u8],
        last: bool,
        litlen_freq: &mut [u32; 286],
        dist_freq: &mut [u32; 30],
    )
        requires
            old(self).ready(),
            old(self).headed(),
            old(writer).wf(),
            block@.len() <= encoding::block_bytes(),
        ensures
            final(writer).wf(),
            final(writer).written(final(out)@) == old(writer).written(old(out)@)
                + encoding::coded_bits(
                old(self).litlen_lengths@,
                old(self).dist_lengths@,
                block@,
                last,
            ),
            final(litlen_freq)@ == encoding::block_litlen(block@),
            final(dist_freq)@ == encoding::block_dist(block@),
    {
        let ghost ll = self.litlen_lengths@;
        let ghost dl = self.dist_lengths@;
        let ghost start = writer.written(out@);
        canonical_codes(&self.litlen_lengths, &mut self.litlen_codes);
        canonical_codes(&self.dist_lengths, &mut self.dist_codes);
        self.write_block_header(writer, out, last);
        let dist_code: u64 = self.dist_codes[0] as u64;
        let dist_bits: u32 = self.dist_lengths[0] as u32;
        *litlen_freq = [0; 286];
        *dist_freq = [0; 30];
        let ghost none = Seq::new(286, |s: int| 0u32);
        let ghost tokens = encoding::tokens(block@, 0);
        let ghost total = encoding::litlen_counts(tokens, none);
        let ghost body = start + encoding::header_bits(ll, dl, last) + encoding::tokens_bits(
            ll,
            dl,
            tokens,
        );
        let ghost mut done: int = 0;
        let mut matched: u32 = 0;
        let mut runs = Runs::new(block);
        proof {
            assert(litlen_freq@ =~= none);
            roundtrip::lemma_tokens_len(block@, 0);
            lemma_written_bound(dl, 0);
        }
        loop
            invariant_except_break
                total == encoding::litlen_counts(runs.rest(), litlen_freq@),
                encoding::run_count(tokens) == matched + encoding::run_count(runs.rest()),
                done + runs.rest().len() == tokens.len(),
                body == writer.written(out@) + encoding::tokens_bits(ll, dl, runs.rest()),
            invariant
                self.coded(ll, dl),
                writer.wf(),
                runs.wf(),
                runs.block == block,
                block@.len() <= encoding::block_bytes(),
                tokens.len() <= block@.len(),
                0 <= done <= tokens.len(),
                matched <= done,
                forall|s: int| 0 <= s < 286 ==> #[trigger] litlen_freq@[s] <= done,
                dist_freq@ == Seq::new(30, |s: int| 0u32),
                dist_code == code::written(dl, 0),
                dist_bits == dl[0],
                dist_code < pow2(dist_bits as nat),
            ensures
                total == litlen_freq@,
                encoding::run_count(tokens) == matched,
                body == writer.written(out@),
            decreases tokens.len() - done,
        {
            let ghost rest = runs.rest();
            match runs.next() {
                None => {
                    proof {
                        assert(rest.len() == 0);
                        assert(body =~= writer.written(out@));
                    }
                    break;
                },
                Some(Item::Literals { from, to }) => {
                    let ghost after = runs.rest();
                    self.emit_literals(
                        writer,
                        out,
                        block,
                        from,
                        to,
                        litlen_freq,
                        Ghost(ll),
                        Ghost(dl),
                        Ghost(after),
                        Ghost(done),
                    );
                    proof {
                        done = done + (to - from);
                        lemma_literals_no_run(block@.subrange(from as int, to as int), after);
                        assert(body =~= writer.written(out@) + encoding::tokens_bits(ll, dl, after));
                    }
                },
                Some(Item::ZeroRun { length }) => {
                    let ghost after = runs.rest();
                    proof {
                        lemma_run_step(length as nat, after);
                        tables::lemma_len_range();
                        tables::lemma_len_index(length as int);
                    }
                    let index: usize = len_symbol(length as u16) as usize;
                    let symbol: usize = 257 + index;
                    let extra_bits: u32 = LEN_EXTRA[index] as u32;
                    let extra: u64 = (length - LEN_BASE[index] as usize) as u64;
                    let code_bits: u32 = self.litlen_lengths[symbol] as u32;
                    let word: u64 = self.litlen_codes[symbol] as u64;
                    proof {
                        lemma_written_bound(ll, symbol as int);
                        assert(ll[symbol as int] <= 12);
                    }
                    // Length code, its extra bits, then the distance-one code: at most 12 +
                    // 5 + 12 bits, which fits a single write.
                    let front: u64 = join(word, code_bits, extra, extra_bits);
                    let both: u64 = join(front, code_bits + extra_bits, dist_code, dist_bits);
                    let ghost so_far = writer.written(out@);
                    writer.write(out, both, code_bits + extra_bits + dist_bits);
                    litlen_freq[symbol] = litlen_freq[symbol] + 1;
                    matched = matched + 1;
                    proof {
                        done = done + 1;
                        let token = Token::Run { length: length as nat };
                        assert(writer.written(out@) =~= so_far + encoding::token_bits(ll, dl, token));
                        assert(body =~= writer.written(out@) + encoding::tokens_bits(ll, dl, after));
                    }
                },
            }
        }
        proof {
            lemma_written_bound(ll, 256);
            assert(ll[256] <= 12);
            assert(litlen_freq@[256] <= done);
        }
        writer.write(out, self.litlen_codes[256] as u64, self.litlen_lengths[256] as u32);
        litlen_freq[256] = litlen_freq[256] + 1;
        dist_freq[0] = matched;
        proof {
            assert(dist_freq@ =~= encoding::block_dist(block@));
            assert(body + encoding::symbol_bits(ll, 256) =~= start + encoding::coded_bits(
                ll,
                dl,
                block@,
                last,
            ));
        }
    }

    /// Whether the code tables are those of the given lengths.
    spec fn coded(&self, ll: Seq<u8>, dl: Seq<u8>) -> bool {
        &&& self.ready()
        &&& self.litlen_lengths@ == ll
        &&& self.dist_lengths@ == dl
        &&& forall|t: int| 0 <= t < 286 ==> #[trigger] self.litlen_codes@[t] == code::written(ll, t)
    }

    /// Emits the literals of a span, four to a write, and counts them.
    #[verifier::rlimit(30)]
    fn emit_literals(
        &self,
        writer: &mut BitWriter,
        out: &mut Vec<u8>,
        block: &[u8],
        from: usize,
        to: usize,
        litlen_freq: &mut [u32; 286],
        Ghost(ll): Ghost<Seq<u8>>,
        Ghost(dl): Ghost<Seq<u8>>,
        Ghost(after): Ghost<Seq<Token>>,
        Ghost(done): Ghost<int>,
    )
        requires
            self.coded(ll, dl),
            old(writer).wf(),
            from <= to <= block@.len(),
            block@.len() <= encoding::block_bytes(),
            0 <= done,
            done + (to - from) <= encoding::block_bytes(),
            forall|s: int| 0 <= s < 286 ==> #[trigger] old(litlen_freq)@[s] <= done,
        ensures
            final(writer).wf(),
            forall|s: int|
                0 <= s < 286 ==> #[trigger] final(litlen_freq)@[s] <= done + (to - from),
            encoding::litlen_counts(after, final(litlen_freq)@) == encoding::litlen_counts(
                encoding::literals(block@.subrange(from as int, to as int)) + after,
                old(litlen_freq)@,
            ),
            final(writer).written(final(out)@) + encoding::tokens_bits(ll, dl, after) == old(writer).written(old(out)@) + encoding::tokens_bits(
                ll,
                dl,
                encoding::literals(block@.subrange(from as int, to as int)) + after,
            ),
    {
        let ghost all = encoding::literals(block@.subrange(from as int, to as int)) + after;
        let ghost total = encoding::litlen_counts(all, litlen_freq@);
        let ghost body = writer.written(out@) + encoding::tokens_bits(ll, dl, all);
        let mut i: usize = from;
        while to - i >= 4
            invariant
                self.coded(ll, dl),
                writer.wf(),
                from <= i <= to <= block@.len(),
                block@.len() <= encoding::block_bytes(),
                0 <= done,
                done + (to - from) <= encoding::block_bytes(),
                forall|s: int| 0 <= s < 286 ==> #[trigger] litlen_freq@[s] <= done + (i - from),
                total == encoding::litlen_counts(
                    encoding::literals(block@.subrange(i as int, to as int)) + after,
                    litlen_freq@,
                ),
                body == writer.written(out@) + encoding::tokens_bits(
                    ll,
                    dl,
                    encoding::literals(block@.subrange(i as int, to as int)) + after,
                ),
            decreases to - i,
        {
            let b0: usize = block[i] as usize;
            let b1: usize = block[i + 1] as usize;
            let b2: usize = block[i + 2] as usize;
            let b3: usize = block[i + 3] as usize;
            let n0: u32 = self.litlen_lengths[b0] as u32;
            let n1: u32 = self.litlen_lengths[b1] as u32;
            let n2: u32 = self.litlen_lengths[b2] as u32;
            let n3: u32 = self.litlen_lengths[b3] as u32;
            proof {
                lemma_written_bound(ll, b0 as int);
                lemma_written_bound(ll, b1 as int);
                lemma_written_bound(ll, b2 as int);
                lemma_written_bound(ll, b3 as int);
                assert(ll[b0 as int] <= 12 && ll[b1 as int] <= 12 && ll[b2 as int] <= 12 && ll[b3 as int]
                    <= 12);
                lemma_span_step(block@, i as int, to as int, after);
                lemma_span_step(block@, i + 1, to as int, after);
                lemma_span_step(block@, i + 2, to as int, after);
                lemma_span_step(block@, i + 3, to as int, after);
            }
            let front: u64 = join(
                self.litlen_codes[b0] as u64,
                n0,
                self.litlen_codes[b1] as u64,
                n1,
            );
            let back: u64 = join(
                self.litlen_codes[b2] as u64,
                n2,
                self.litlen_codes[b3] as u64,
                n3,
            );
            let four: u64 = join(front, n0 + n1, back, n2 + n3);
            let ghost so_far = writer.written(out@);
            let ghost t0 = encoding::literals(block@.subrange(i as int, to as int)) + after;
            let ghost t1 = encoding::literals(block@.subrange(i + 1, to as int)) + after;
            let ghost t2 = encoding::literals(block@.subrange(i + 2, to as int)) + after;
            let ghost t3 = encoding::literals(block@.subrange(i + 3, to as int)) + after;
            let ghost t4 = encoding::literals(block@.subrange(i + 4, to as int)) + after;
            writer.write(out, four, n0 + n1 + (n2 + n3));
            let ghost c0 = litlen_freq@;
            litlen_freq[b0] = litlen_freq[b0] + 1;
            let ghost c1 = litlen_freq@;
            litlen_freq[b1] = litlen_freq[b1] + 1;
            let ghost c2 = litlen_freq@;
            litlen_freq[b2] = litlen_freq[b2] + 1;
            let ghost c3 = litlen_freq@;
            litlen_freq[b3] = litlen_freq[b3] + 1;
            let ghost c4 = litlen_freq@;
            i = i + 4;
            proof {
                assert(encoding::litlen_counts(t0, c0) == encoding::litlen_counts(t1, c1));
                assert(encoding::litlen_counts(t1, c1) == encoding::litlen_counts(t2, c2));
                assert(encoding::litlen_counts(t2, c2) == encoding::litlen_counts(t3, c3));
                assert(encoding::litlen_counts(t3, c3) == encoding::litlen_counts(t4, c4));
                let s0 = encoding::symbol_bits(ll, b0 as int);
                let s1 = encoding::symbol_bits(ll, b1 as int);
                let s2 = encoding::symbol_bits(ll, b2 as int);
                let s3 = encoding::symbol_bits(ll, b3 as int);
                let rest = encoding::tokens_bits(ll, dl, t4);
                assert(encoding::tokens_bits(ll, dl, t3) == s3 + rest);
                assert(encoding::tokens_bits(ll, dl, t2) == s2 + (s3 + rest));
                assert(encoding::tokens_bits(ll, dl, t1) == s1 + (s2 + (s3 + rest)));
                assert(encoding::tokens_bits(ll, dl, t0) == s0 + (s1 + (s2 + (s3 + rest))));
                assert(writer.written(out@) == so_far + ((s0 + s1) + (s2 + s3)));
                lemma_regroup(so_far, s0, s1, s2, s3, rest);
            }
        }
        while i < to
            invariant
                self.coded(ll, dl),
                writer.wf(),
                from <= i <= to <= block@.len(),
                block@.len() <= encoding::block_bytes(),
                0 <= done,
                done + (to - from) <= encoding::block_bytes(),
                forall|s: int| 0 <= s < 286 ==> #[trigger] litlen_freq@[s] <= done + (i - from),
                total == encoding::litlen_counts(
                    encoding::literals(block@.subrange(i as int, to as int)) + after,
                    litlen_freq@,
                ),
                body == writer.written(out@) + encoding::tokens_bits(
                    ll,
                    dl,
                    encoding::literals(block@.subrange(i as int, to as int)) + after,
                ),
            decreases to - i,
        {
            let byte: usize = block[i] as usize;
            proof {
                lemma_written_bound(ll, byte as int);
                assert(ll[byte as int] <= 12);
                lemma_span_step(block@, i as int, to as int, after);
            }
            let ghost so_far = writer.written(out@);
            writer.write(out, self.litlen_codes[byte] as u64, self.litlen_lengths[byte] as u32);
            litlen_freq[byte] = litlen_freq[byte] + 1;
            i = i + 1;
            proof {
                let s0 = encoding::symbol_bits(ll, byte as int);
                let rest = encoding::tokens_bits(
                    ll,
                    dl,
                    encoding::literals(block@.subrange(i as int, to as int)) + after,
                );
                assert(so_far + (s0 + rest) =~= so_far + s0 + rest);
            }
        }
        assert(encoding::literals(block@.subrange(i as int, to as int)) + after =~= after);
    }

    /// Writes one block, coded or stored, whichever is expected to be shorter.
    #[verifier::rlimit(30)]
    fn put_block(&mut self, blocks: &mut Blocks, block: &[u8], last: bool, out: &mut Vec<u8>)
        requires
            old(blocks).wf(),
            block@.len() <= encoding::block_bytes(),
        ensures
            final(blocks).wf(),
            final(blocks).state@ == encoding::block_state(old(blocks).state@, block@),
            final(blocks).bits@ == old(blocks).bits@ + encoding::block_out(
                old(blocks).state@,
                block@,
                last,
                old(blocks).bits@.len() as int,
            ),
            final(blocks).writer.written(final(out)@) == old(blocks).writer.written(old(out)@)
                + encoding::block_out(
                old(blocks).state@,
                block@,
                last,
                old(blocks).bits@.len() as int,
            ),
    {
        let ghost state = blocks.state@;
        let ghost p = blocks.bits@.len() as int;
        let bytes: usize = block.len();
        // An exact count is needed to bootstrap, and worth repeating occasionally in case the
        // image changes character; the rest of the time the previous block's measurement
        // stands in, which is what lets an incompressible image skip the counting pass
        // entirely and go straight to stored blocks.
        let measurement: Option<u64> = if blocks.since >= RUN_PROBE_INTERVAL {
            None
        } else {
            blocks.density
        };
        if measurement.is_none() {
            blocks.since = 0;
            count_runs(block, &mut blocks.litlen_freq, &mut blocks.dist_freq);
        } else {
            blocks.since = blocks.since + 1;
        }
        proof {
            roundtrip::lemma_block_codes(state, block@);
            roundtrip::lemma_block_counts(block@);
        }
        // Give every symbol a code, whether or not the counts say it occurs. A block coded
        // with the previous block's code will meet bytes that block never contained, and a
        // symbol with no code cannot be written at all. On a block of tens of thousands of
        // symbols the floor shifts the rarest codes by a bit and leaves the common ones
        // untouched.
        let ghost counts = blocks.litlen_freq@;
        let mut s: usize = 0;
        while s < LITLEN_SYMBOLS
            invariant
                s <= 286,
                counts.len() == 286,
                forall|t: int| 0 <= t < 286 ==> #[trigger] counts[t] <= 262200,
                forall|t: int| 0 <= t < s ==> #[trigger] blocks.litlen_freq@[t] == counts[t] + 1,
                forall|t: int| s <= t < 286 ==> #[trigger] blocks.litlen_freq@[t] == counts[t],
                blocks.dist_freq@ == encoding::dist_freq(state, block@),
                blocks.writer == old(blocks).writer,
                blocks.bits == old(blocks).bits,
                blocks.state == old(blocks).state,
                blocks.since == encoding::next_since(state),
            decreases LITLEN_SYMBOLS - s,
        {
            assert(counts[s as int] <= 262200);
            blocks.litlen_freq[s] = blocks.litlen_freq[s] + 1;
            s = s + 1;
        }
        assert(blocks.litlen_freq@ =~= encoding::litlen_freq(state, block@));
        self.fit_codes(&blocks.litlen_freq, &blocks.dist_freq);
        let ghost ll = self.litlen_lengths@;
        let ghost dl = self.dist_lengths@;
        let header_bits: u64 = self.build_header();
        let symbol_bits: u64 = match measurement {
            Some(bits_per_byte) => {
                proof {
                    assert(bits_per_byte * bytes <= 0x2000000 * 262144) by (nonlinear_arith)
                        requires
                            bits_per_byte <= 0x2000000,
                            bytes <= 262144,
                    ;
                }
                bits_per_byte * bytes as u64 / 256
            },
            None => {
                proof {
                    assert forall|t: int| 0 <= t < 30 implies #[trigger] blocks.dist_freq@[t]
                        <= 300000 by {
                        if t > 0 {
                            assert(encoding::block_dist(block@)[t] == 0);
                        }
                    }
                }
                self.token_bits(&blocks.litlen_freq, &blocks.dist_freq)
            },
        };
        let compressed_bits: u64 = header_bits + symbol_bits;
        let stored_bits: u64 = 3 + 7 + 32 + 8 * bytes as u64;
        assert(compressed_bits == encoding::estimate(state, block@));
        let cost: u64 = if stored_bits < compressed_bits {
            emit_stored(&mut blocks.writer, out, block, last, Ghost(p));
            // Nothing was coded, but what coding *would* have cost is still the best estimate
            // for the next block, and it is what keeps incompressible input from being
            // counted over and over.
            compressed_bits
        } else {
            let before: usize = out.len();
            let held: u32 = blocks.writer.nbits;
            let ghost old_len = blocks.writer.written(out@).len();
            self.emit_runs(
                &mut blocks.writer,
                out,
                block,
                last,
                &mut blocks.litlen_freq,
                &mut blocks.dist_freq,
            );
            proof {
                roundtrip::lemma_coded_len(ll, dl, block@, last);
                assert(blocks.writer.written(out@).len() == 8 * out@.len() + blocks.writer.nbits);
                assert(old_len == 8 * before + held);
                assert(encoding::coded_bits(ll, dl, block@, last).len() == encoding::coded_bits(
                    ll,
                    dl,
                    block@,
                    false,
                ).len());
            }
            ((out.len() - before) as u64 * 8 + blocks.writer.nbits as u64) - held as u64
        };
        let ghost share: int = if stored_bits >= compressed_bits {
            7424int
        } else if let Some(d) = measurement {
            d as int
        } else {
            0x800000int
        };
        proof {
            if bytes >= 131072 {
                if let Some(d) = measurement {
                    assert(d * bytes == bytes * d) by (nonlinear_arith);
                }
                assert(0x800000 * bytes >= 0x100_0000_0000) by (nonlinear_arith)
                    requires
                        bytes >= 131072,
                ;
                assert(cost * 256 <= 2560000 + share * bytes);
            }
        }
        // A block that is mostly header says nothing about the next one.
        blocks.density = if bytes < RUN_BLOCK_BYTES / 2 {
            None
        } else {
            let per_byte: u64 = cost * 256 / bytes as u64;
            if per_byte == 0 {
                Some(1)
            } else {
                Some(per_byte)
            }
        };
        let ghost emitted = encoding::block_out(state, block@, last, p);
        proof {
            reveal(encoding::block_out);
            reveal(encoding::block_state);
            let next = encoding::block_state(state, block@);
            assert(blocks.litlen_freq@ == next.litlen);
            assert(blocks.dist_freq@ == next.dist);
            if bytes >= 131072 {
                lemma_density_bound(cost as int, bytes as int, share);
            }
            lemma_carry(
                old(blocks).writer,
                old(blocks).bits@,
                old(out)@,
                emitted,
                blocks.writer,
                out@,
            );
        }
        blocks.state = Ghost(encoding::block_state(state, block@));
        blocks.bits = Ghost(old(blocks).bits@ + emitted);
    }

    /// Compresses `input` a block at a time.
    ///
    /// The first block is scanned twice, once to count its symbols and once to write them,
    /// so a small image gets a code fitted exactly to it. Most blocks after that are written
    /// in a single pass, using the code built from the block before while counting their own
    /// symbols for the block after.
    ///
    /// Neighbouring blocks of an image have near-identical byte distributions - they are
    /// adjacent bands of the same picture - so a code one block out of date costs a fraction
    /// of a percent, and it halves the number of times the data is walked.
    fn compress(&mut self, blocks: &mut Blocks, input: &[u8], last: bool, out: &mut Vec<u8>)
        requires
            old(blocks).wf(),
        ensures
            final(blocks).wf(),
            final(blocks).state@ == encoding::deflate_state(old(blocks).state@, input@),
            final(blocks).bits@ == old(blocks).bits@ + encoding::deflate_bits(
                old(blocks).state@,
                input@,
                last,
                old(blocks).bits@.len() as int,
            ),
            final(blocks).writer.written(final(out)@) == old(blocks).writer.written(old(out)@)
                + encoding::deflate_bits(
                old(blocks).state@,
                input@,
                last,
                old(blocks).bits@.len() as int,
            ),
    {
        let ghost all = encoding::deflate_bits(
            blocks.state@,
            input@,
            last,
            blocks.bits@.len() as int,
        );
        let ghost after = encoding::deflate_state(blocks.state@, input@);
        let ghost target = blocks.bits@ + all;
        let ghost full = blocks.writer.written(out@) + all;
        let mut start: usize = 0;
        assert(input@.skip(0) =~= input@);
        while input.len() - start > RUN_BLOCK_BYTES
            invariant
                start <= input@.len(),
                blocks.wf(),
                after == encoding::deflate_state(blocks.state@, input@.skip(start as int)),
                target == blocks.bits@ + encoding::deflate_bits(
                    blocks.state@,
                    input@.skip(start as int),
                    last,
                    blocks.bits@.len() as int,
                ),
                full == blocks.writer.written(out@) + encoding::deflate_bits(
                    blocks.state@,
                    input@.skip(start as int),
                    last,
                    blocks.bits@.len() as int,
                ),
            decreases input.len() - start,
        {
            let end: usize = start + RUN_BLOCK_BYTES;
            let ghost rest = input@.skip(start as int);
            let ghost state = blocks.state@;
            let ghost p = blocks.bits@.len() as int;
            proof {
                assert(rest.take(262144) =~= input@.subrange(start as int, end as int));
                assert(rest.skip(262144) =~= input@.skip(end as int));
            }
            let ghost before = blocks.bits@;
            let ghost so_far = blocks.writer.written(out@);
            self.put_block(blocks, &input[start..end], false, out);
            proof {
                let here = encoding::block_out(state, rest.take(262144), false, p);
                let others = encoding::deflate_bits(
                    blocks.state@,
                    rest.skip(262144),
                    last,
                    blocks.bits@.len() as int,
                );
                assert(before + (here + others) =~= (before + here) + others);
                assert(so_far + (here + others) =~= (so_far + here) + others);
            }
            start = end;
        }
        assert(input@.skip(start as int) =~= input@.subrange(start as int, input@.len() as int));
        self.put_block(blocks, &input[start..input.len()], last, out);
    }

    /// Compresses `input` into a zlib stream appended to `output`.
    pub fn zlib(&mut self, input: &[u8], output: &mut Vec<u8>)
        ensures
            final(output)@ == old(output)@ + encoding::zlib_bytes(input@),
    {
        let mut stream = self.zlib_start(output);
        self.zlib_push(&mut stream, input, true, output);
        proof {
            let whole = encoding::pushed(encoding::started(), input@, true);
            let packed = encoding::whole_bytes(encoding::aligned(whole.bits));
            assert(packed.skip(0) =~= packed);
            assert(output@ =~= old(output)@ + encoding::zlib_bytes(input@));
        }
    }

    /// Begins a zlib stream that is compressed in pieces, appending its header to `output`.
    pub fn zlib_start(&mut self, output: &mut Vec<u8>) -> (stream: ZlibStream)
        ensures
            stream.wf(),
            stream.progress() == encoding::started(),
            final(output)@ == old(output)@ + seq![0x78u8, 0x01u8],
    {
        // CM = deflate, CINFO = 32 KiB window, no preset dictionary, and a check byte that
        // makes the two-byte header a multiple of 31.
        output.push(0x78);
        output.push(0x01);
        assert(output@ =~= old(output)@ + seq![0x78u8, 0x01u8]);
        ZlibStream { blocks: Blocks::new(), checksum: Adler32::new(), data: Ghost(Seq::empty()) }
    }

    /// Compresses the next piece of a zlib stream, appending to `output` the bytes that it
    /// completes. With `last`, the stream ends behind the piece and nothing may be pushed any
    /// more.
    ///
    /// Bits that do not fill a byte yet are carried in `stream`. `output` need not be the
    /// vector that earlier pieces went to.
    pub fn zlib_push(
        &mut self,
        stream: &mut ZlibStream,
        data: &[u8],
        last: bool,
        output: &mut Vec<u8>,
    )
        requires
            old(stream).wf(),
        ensures
            final(stream).progress() == encoding::pushed(old(stream).progress(), data@, last),
            !last ==> final(stream).wf(),
            !last ==> final(output)@ == old(output)@ + encoding::whole_bytes(
                final(stream).progress().bits,
            ).skip((old(stream).progress().bits.len() / 8) as int),
            last ==> final(output)@ == old(output)@ + encoding::whole_bytes(
                encoding::aligned(final(stream).progress().bits),
            ).skip((old(stream).progress().bits.len() / 8) as int) + encoding::be_bytes(
                adler32::checksum(final(stream).progress().data),
            ),
    {
        let ghost before = stream.progress();
        if data.len() == 0 && !last {
            proof {
                roundtrip::lemma_whole_bytes(before.bits);
                assert(encoding::whole_bytes(before.bits).skip((before.bits.len() / 8) as int)
                    =~= Seq::<u8>::empty());
                assert(output@ =~= old(output)@ + Seq::<u8>::empty());
            }
            return;
        }
        self.compress(&mut stream.blocks, data, last, output);
        stream.checksum.update(data);
        proof {
            adler32::law_split_anywhere(adler32::initial(), before.data, data@);
        }
        stream.data = Ghost(before.data + data@);
        let ghost now = stream.progress();
        let ghost new = encoding::deflate_bits(
            before.state,
            data@,
            last,
            before.bits.len() as int,
        );
        if !last {
            proof {
                lemma_packed(
                    old(output)@,
                    before.bits,
                    new,
                    stream.blocks.writer.carry(),
                    output@,
                );
            }
            return;
        }
        let ghost written = stream.blocks.writer.written(output@);
        stream.blocks.writer.align(output);
        proof {
            let pad = encoding::zero_bits(bits::padding(now.bits.len() as int) as nat);
            assert(written + pad =~= bits::bits_of(old(output)@) + old(stream).blocks.writer.carry() + (new + pad));
            assert(before.bits + (new + pad) =~= encoding::aligned(now.bits));
            assert(bits::bits_of(output@) + Seq::<bool>::empty() =~= bits::bits_of(output@));
            lemma_packed(old(output)@, before.bits, new + pad, Seq::empty(), output@);
        }
        let sum: u32 = stream.checksum.finish();
        let ghost packed = output@;
        output.push((sum / 16777216) as u8);
        output.push(((sum / 65536) % 256) as u8);
        output.push(((sum / 256) % 256) as u8);
        output.push((sum % 256) as u8);
        assert(output@ =~= packed + encoding::be_bytes(sum as nat));
    }

    /// Compresses `input` as a bare DEFLATE stream appended to `output`.
    pub fn raw(&mut self, input: &[u8], output: &mut Vec<u8>)
        ensures
            final(output)@ == old(output)@ + encoding::raw_bytes(input@),
    {
        let mut blocks = Blocks::new();
        let ghost none = blocks.bits@;
        let ghost held = blocks.writer.carry();
        self.compress(&mut blocks, input, true, output);
        let ghost written = blocks.writer.written(output@);
        let ghost all = blocks.bits@;
        blocks.writer.align(output);
        proof {
            let pad = encoding::zero_bits(bits::padding(all.len() as int) as nat);
            assert(none + all =~= all);
            assert(all + pad =~= encoding::aligned(all));
            assert(written + pad =~= bits::bits_of(old(output)@) + held + (all + pad));
            assert(bits::bits_of(output@) + Seq::<bool>::empty() =~= bits::bits_of(output@));
            assert(none + (all + pad) =~= all + pad);
            lemma_packed(old(output)@, none, all + pad, Seq::empty(), output@);
            let packed = encoding::whole_bytes(all + pad);
            assert(packed.skip(0) =~= packed);
        }
    }

    fn push_header(&mut self, symbol: u8, extra_bits: u8, extra_value: u8)
        requires
            symbol < 19,
            old(self).clcl_freq@ == encoding::clcl_counts(old(self).header_symbols@),
            old(self).header_symbols@.len() < 316,
            roundtrip::all_proper(old(self).header_symbols@),
        ensures
            final(self).litlen_lengths == old(self).litlen_lengths,
            final(self).dist_lengths == old(self).dist_lengths,
            final(self).header_symbols@ == old(self).header_symbols@.push(
                (symbol, extra_bits, extra_value),
            ),
            final(self).clcl_freq@ == encoding::clcl_counts(final(self).header_symbols@),
    {
        proof {
            let symbols = self.header_symbols@;
            assert forall|i: int| 0 <= i < symbols.len() implies (#[trigger] symbols[i]).0 < 19 by {
                assert(roundtrip::proper(symbols[i]));
            }
            roundtrip::lemma_clcl_counts(symbols);
            let next = symbols.push((symbol, extra_bits, extra_value));
            assert(next.drop_last() =~= symbols);
        }
        self.clcl_freq[symbol as usize] = self.clcl_freq[symbol as usize] + 1;
        self.header_symbols.push((symbol, extra_bits, extra_value));
    }
}

/// What proper symbols begin with is proper too.
proof fn lemma_prefix_proper(all: Seq<(u8, u8, u8)>, front: Seq<(u8, u8, u8)>)
    requires
        roundtrip::all_proper(all),
        front.len() < all.len(),
        forall|i: int| 0 <= i < front.len() ==> #[trigger] front[i] == all[i],
    ensures
        roundtrip::all_proper(front),
{
    assert forall|i: int| 0 <= i < front.len() implies roundtrip::proper(#[trigger] front[i]) by {
        assert(front[i] == all[i]);
    }
}

/// A span of literals holds no match.
proof fn lemma_literals_no_run(bytes: Seq<u8>, after: Seq<Token>)
    ensures
        encoding::run_count(encoding::literals(bytes) + after) == encoding::run_count(after),
    decreases bytes.len(),
{
    let all = encoding::literals(bytes) + after;
    if bytes.len() == 0 {
        assert(all =~= after);
    } else {
        lemma_literals_no_run(bytes.skip(1), after);
        assert(all.skip(1) =~= encoding::literals(bytes.skip(1)) + after);
        assert(all[0] is Literal);
    }
}

/// A codeword fits its length.
proof fn lemma_written_bound(lengths: Seq<u8>, symbol: int)
    requires
        code::complete(lengths),
        code::has_code(lengths, symbol),
    ensures
        code::written(lengths, symbol) < pow2(lengths[symbol] as nat),
{
    code::lemma_codeword_bound(lengths, symbol);
    bits::lemma_reversed_bound(lengths[symbol] as nat, code::codeword(lengths, symbol));
}

/// One bit.
proof fn lemma_lsb_bool(b: bool)
    ensures
        bits::lsb(
            if b {
                1
            } else {
                0
            },
            1,
        ) == seq![b],
{
    let v: nat = if b {
        1
    } else {
        0
    };
    bits::lemma_pow2_zero(v);
    assert(bits::lsb(v, 1)[0] == ((v / pow2(0)) % 2 == 1));
    assert(bits::lsb(v, 1) =~= seq![b]);
}

/// Bits in a row stay the same however they are grouped.
proof fn lemma_regroup(
    front: Seq<bool>,
    a: Seq<bool>,
    b: Seq<bool>,
    c: Seq<bool>,
    d: Seq<bool>,
    rest: Seq<bool>,
)
    ensures
        front + (a + (b + (c + (d + rest)))) == front + ((a + b) + (c + d)) + rest,
{
    assert(front + (a + (b + (c + (d + rest)))) =~= front + ((a + b) + (c + d)) + rest);
}

/// What compressing a stream carries from block to block.
struct Blocks {
    /// Counts that the next code is built from, unless the next block is counted first.
    litlen_freq: [u32; 286],
    dist_freq: [u32; 30],
    /// Bits per input byte the previous block needed, in 8.8 fixed point. `None` means there
    /// is no usable measurement, and the next block must be counted exactly.
    density: Option<u64>,
    /// Blocks written since one was last counted exactly.
    since: u32,
    writer: BitWriter,
    state: Ghost<encoding::State>,
    /// All bits of the stream so far.
    bits: Ghost<Seq<bool>>,
}

impl Blocks {
    spec fn wf(&self) -> bool {
        let state = self.state@;
        let n = self.bits@.len();
        &&& roundtrip::state_ok(state)
        &&& state.litlen == self.litlen_freq@
        &&& state.dist == self.dist_freq@
        &&& state.since == self.since
        &&& match self.density {
            Some(d) => state.density == Some(d as nat) && d <= 0x1000000 + 32 * self.since,
            None => state.density is None,
        }
        &&& self.writer.wf()
        &&& self.writer.nbits == n % 8
        &&& self.writer.carry() == self.bits@.skip(8 * (n / 8) as int)
    }

    fn new() -> (blocks: Self)
        ensures
            blocks.wf(),
            blocks.state@ == encoding::first_state(),
            blocks.bits@ == Seq::<bool>::empty(),
    {
        let blocks = Self {
            litlen_freq: [0; 286],
            dist_freq: [0; 30],
            density: None,
            since: 0,
            writer: BitWriter::new(),
            state: Ghost(encoding::first_state()),
            bits: Ghost(Seq::empty()),
        };
        proof {
            assert(blocks.litlen_freq@ =~= encoding::first_state().litlen);
            assert(blocks.dist_freq@ =~= encoding::first_state().dist);
            assert(blocks.writer.carry() =~= blocks.bits@.skip(0));
        }
        blocks
    }
}

/// A zlib stream that is being compressed in pieces. See [`Deflater::zlib_start`].
pub struct ZlibStream {
    blocks: Blocks,
    checksum: Adler32,
    data: Ghost<Seq<u8>>,
}

impl ZlibStream {
    /// Whether the stream still takes input.
    pub closed spec fn wf(&self) -> bool {
        self.blocks.wf() && self.checksum.sums() == adler32::fold(adler32::initial(), self.data@)
    }

    /// What went into the stream and came out of it so far.
    pub closed spec fn progress(&self) -> encoding::Progress {
        encoding::Progress {
            state: self.blocks.state@,
            bits: self.blocks.bits@,
            data: self.data@,
        }
    }
}

/// Emits `raw` as one or more uncompressed blocks.
///
/// Choosing this over a coded block keeps incompressible input from growing, which is
/// exactly the case that matters for photographic images.
fn emit_stored(
    writer: &mut BitWriter,
    out: &mut Vec<u8>,
    raw: &[u8],
    last: bool,
    Ghost(p): Ghost<int>,
)
    requires
        old(writer).wf(),
        0 <= p,
        old(writer).nbits == p % 8,
    ensures
        final(writer).wf(),
        final(writer).written(final(out)@) == old(writer).written(old(out)@)
            + encoding::stored_bits(p, raw@, last),
{
    // A stored block's length field is 16 bits, so long blocks are split.
    let ghost full = writer.written(out@) + encoding::stored_bits(p, raw@, last);
    let ghost mut at: int = p;
    let mut start: usize = 0;
    assert(raw@.skip(0) =~= raw@);
    while raw.len() - start > 65535
        invariant
            start <= raw@.len(),
            writer.wf(),
            0 <= at,
            writer.nbits == at % 8,
            full == writer.written(out@) + encoding::stored_bits(at, raw@.skip(start as int), last),
        decreases raw.len() - start,
    {
        let ghost rest = raw@.skip(start as int);
        let ghost so_far = writer.written(out@);
        proof {
            assert(rest.take(65535) =~= raw@.subrange(start as int, start + 65535));
            assert(rest.skip(65535) =~= raw@.skip(start + 65535));
        }
        emit_stored_chunk(writer, out, &raw[start..start + 65535], false, Ghost(at));
        proof {
            let here = encoding::stored_chunk(at, rest.take(65535), false);
            let others = encoding::stored_bits(at + here.len(), rest.skip(65535), last);
            assert(so_far + (here + others) =~= so_far + here + others);
            at = at + here.len();
        }
        start = start + 65535;
    }
    assert(raw@.skip(start as int) =~= raw@.subrange(start as int, raw@.len() as int));
    emit_stored_chunk(writer, out, &raw[start..raw.len()], last, Ghost(at));
}

/// Emits one uncompressed block.
#[verifier::rlimit(30)]
fn emit_stored_chunk(
    writer: &mut BitWriter,
    out: &mut Vec<u8>,
    chunk: &[u8],
    last: bool,
    Ghost(p): Ghost<int>,
)
    requires
        old(writer).wf(),
        0 <= p,
        old(writer).nbits == p % 8,
        chunk@.len() <= 65535,
    ensures
        final(writer).wf(),
        final(writer).nbits == (p + encoding::stored_chunk(p, chunk@, last).len()) % 8,
        final(writer).written(final(out)@) == old(writer).written(old(out)@)
            + encoding::stored_chunk(p, chunk@, last),
{
    let ghost start = writer.written(out@);
    proof {
        lemma_lsb_bool(last);
        bits::lemma_pow2_small();
    }
    writer.write(
        out,
        if last {
            1
        } else {
            0
        },
        1,
    );
    writer.write(out, 0, 2);
    let ghost pad = encoding::zero_bits(bits::padding(p + 3) as nat);
    assert(bits::padding(writer.nbits as int) == bits::padding(p + 3));
    writer.align(out);
    proof {
        assert(writer.carry() =~= Seq::<bool>::empty());
        assert(writer.written(out@) =~= start + seq![last] + bits::lsb(0, 2) + pad);
    }
    let len: u16 = chunk.len() as u16;
    writer.write(out, len as u64, 16);
    writer.write(out, (65535 - len) as u64, 16);
    let ghost head = writer.written(out@);
    let ghost before = out@;
    out.extend_from_slice(chunk);
    proof {
        assert(out@ =~= before + chunk@);
        bits::lemma_bits_concat(before, chunk@);
        assert(writer.nbits == 0);
        assert(writer.carry() =~= Seq::<bool>::empty());
        assert(head =~= bits::bits_of(before));
        assert(writer.written(out@) =~= head + bits::bits_of(chunk@));
        let b1 = bits::lsb(0, 2);
        let b3 = bits::lsb(chunk@.len(), 16);
        let b4 = bits::lsb((65535 - chunk@.len()) as nat, 16);
        let b5 = bits::bits_of(chunk@);
        assert(start + seq![last] + b1 + pad + b3 + b4 + b5 =~= start + (seq![last] + b1 + pad + b3
            + b4 + b5));
        assert(bits::bits_of(chunk@).len() == 8 * chunk@.len());
        assert((p + 3 + bits::padding(p + 3)) % 8 == 0);
    }
}

/// A measurement over at least half a block exceeds the symbols' own share by little.
proof fn lemma_density_bound(cost: int, bytes: int, share: int)
    requires
        0 <= cost,
        131072 <= bytes,
        0 <= share,
        cost * 256 <= 2560000 + share * bytes,
    ensures
        0 <= cost * 256 / bytes <= share + 20,
{
    let q = cost * 256 / bytes;
    lemma_fundamental_div_mod(cost * 256, bytes);
    lemma_div_pos_is_pos(cost * 256, bytes);
    assert(q <= share + 20) by (nonlinear_arith)
        requires
            bytes * q <= 2560000 + share * bytes,
            131072 <= bytes,
    ;
}

/// What follows the same bits is the same.
proof fn lemma_suffix(a: Seq<bool>, b: Seq<bool>, c: Seq<bool>, d: Seq<bool>)
    requires
        a + b == c + d,
        b.len() <= d.len(),
    ensures
        b == d.skip(d.len() - b.len()),
{
    let l = a + b;
    let r = c + d;
    let t = d.skip(d.len() - b.len());
    assert(l.len() == a.len() + b.len());
    assert(r.len() == c.len() + d.len());
    assert forall|i: int| 0 <= i < b.len() implies b[i] == t[i] by {
        assert(l[a.len() + i] == b[i]);
        assert(r[a.len() + i] == d[a.len() + i - c.len()]);
    }
    assert(b =~= t);
}

/// The bits that do not fill a byte are the last ones of the stream.
proof fn lemma_carry(
    before: BitWriter,
    bits: Seq<bool>,
    out: Seq<u8>,
    new: Seq<bool>,
    after: BitWriter,
    grown: Seq<u8>,
)
    requires
        before.wf(),
        after.wf(),
        before.nbits == bits.len() % 8,
        before.carry() == bits.skip(8 * (bits.len() / 8) as int),
        after.written(grown) == before.written(out) + new,
    ensures
        after.nbits == (bits + new).len() % 8,
        after.carry() == (bits + new).skip(8 * ((bits + new).len() / 8) as int),
{
    let all = bits + new;
    let m = 8 * (bits.len() / 8);
    let n = 8 * (all.len() / 8);
    let held = before.carry();
    let w = held + new;
    let x = bits::bits_of(grown);
    let y = bits::bits_of(out);
    assert(x.len() == 8 * grown.len());
    assert(y.len() == 8 * out.len());
    assert(y + held + new =~= y + w);
    assert((x + after.carry()).len() == x.len() + after.nbits);
    assert((y + w).len() == y.len() + w.len());
    assert(w.len() == 8 * (grown.len() - out.len()) + after.nbits);
    lemma_suffix(x, after.carry(), y, w);
    assert(bits =~= bits.take(m as int) + held);
    assert(all =~= bits.take(m as int) + w);
    let tail = all.skip(n as int);
    assert(all.take(n as int) + tail =~= bits.take(m as int) + w);
    lemma_suffix(all.take(n as int), tail, bits.take(m as int), w);
}

/// Equal bits are equal bytes.
proof fn lemma_bits_injective(a: Seq<u8>, b: Seq<u8>)
    requires
        bits::bits_of(a) == bits::bits_of(b),
    ensures
        a == b,
{
    let x = bits::bits_of(a);
    let y = bits::bits_of(b);
    assert(x.len() == 8 * a.len() && y.len() == 8 * b.len());
    assert(Seq::<bool>::empty() + y + Seq::<bool>::empty() =~= x);
    bits::lemma_holds_part(a, Seq::empty(), y, Seq::empty());
    roundtrip::lemma_bytes_read(a, 0, b);
    assert(a.subrange(0, b.len() as int) =~= a);
}

/// What was appended are the bytes that the new bits completed.
proof fn lemma_packed(
    out: Seq<u8>,
    bits: Seq<bool>,
    new: Seq<bool>,
    tail: Seq<bool>,
    grown: Seq<u8>,
)
    requires
        bits::bits_of(grown) + tail == bits::bits_of(out) + bits.skip(
            8 * (bits.len() / 8) as int,
        ) + new,
        tail.len() < 8,
    ensures
        grown == out + encoding::whole_bytes(bits + new).skip((bits.len() / 8) as int),
{
    let all = bits + new;
    let done = bits.len() / 8;
    let packed = encoding::whole_bytes(all);
    let more = packed.skip(done as int);
    roundtrip::lemma_whole_bytes(all);
    bits::lemma_bits_concat(out, more);
    bits::lemma_bits_concat(packed.take(done as int), more);
    assert(packed.take(done as int) + more =~= packed);
    let l = bits::bits_of(grown);
    let r = bits::bits_of(out + more);
    let rhs = bits::bits_of(out) + bits.skip(8 * done as int) + new;
    assert(l.len() == 8 * grown.len());
    assert(r.len() == 8 * (out.len() + more.len()));
    assert((l + tail).len() == rhs.len());
    assert(packed.len() == all.len() / 8);
    assert(l.len() == r.len());
    assert forall|i: int| 0 <= i < l.len() implies l[i] == r[i] by {
        assert((l + tail)[i] == rhs[i]);
        if i < 8 * out.len() {
            assert(r[i] == bits::bits_of(out)[i]);
        } else {
            let k = i - 8 * out.len();
            assert(r[i] == bits::bits_of(more)[k]);
            assert(bits::bits_of(packed)[8 * done + k] == bits::bits_of(more)[k]);
            assert(bits::bits_of(packed)[8 * done + k] == all[8 * done + k]);
        }
    }
    assert(l =~= r);
    lemma_bits_injective(grown, out + more);
}

/// Compresses `input` into a zlib stream.
pub fn compress_zlib(input: &[u8]) -> (output: Vec<u8>)
    ensures
        output@ == encoding::zlib_bytes(input@),
{
    let mut output: Vec<u8> = Vec::with_capacity(input.len() / 3 + 64);
    let mut deflater = Deflater::new();
    deflater.zlib(input, &mut output);
    assert(output@ =~= encoding::zlib_bytes(input@));
    output
}

} // verus!
