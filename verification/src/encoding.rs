//! How the compressor writes a stream: which symbols a block is cut into, which codes it gets
//! and which bits come out.

use vstd::prelude::*;
use vstd::arithmetic::power2::*;
use crate::adler32;
use crate::bits;
use crate::code;
use crate::tables;
use crate::tree;

verus! {

// ---------------------------------------------------------------------------------------
// Symbols of a block
// ---------------------------------------------------------------------------------------

/// What a block is cut into.
pub enum Token {
    /// A byte coded by itself.
    Literal { byte: u8 },
    /// `length` zeros coded as a match at distance one.
    Run { length: nat },
}

/// Length of the run of zeros from `i` on.
pub open spec fn zero_run(block: Seq<u8>, i: int) -> nat
    decreases block.len() - i,
{
    if 0 <= i < block.len() && block[i] == 0 {
        1 + zero_run(block, i + 1)
    } else {
        0
    }
}

/// A run of zeros ends where the block does or something else follows.
pub proof fn lemma_zero_run(block: Seq<u8>, i: int)
    requires
        0 <= i <= block.len(),
    ensures
        i + zero_run(block, i) <= block.len(),
        forall|j: int| i <= j < i + zero_run(block, i) ==> #[trigger] block[j] == 0,
        i + zero_run(block, i) < block.len() ==> block[i + zero_run(block, i)]
            != 0,
    decreases block.len() - i,
{
    if i < block.len() && block[i] == 0 {
        lemma_zero_run(block, i + 1);
    }
}

/// Whether a run of zeros worth a match starts at `i`. The last few bytes are always
/// literals.
pub open spec fn run_at(block: Seq<u8>, i: int) -> bool {
    zero_run(block, i) >= 4 && i + 8 <= block.len()
}

/// Length of the first match that `n` zeros are coded with: as long as possible, but never
/// leaving a rest too short for a match of its own.
pub open spec fn piece(n: nat) -> nat {
    if n <= 258 {
        n
    } else if n - 258 < 4 {
        254
    } else {
        258
    }
}

/// `n` zeros as matches.
pub open spec fn pieces(n: nat) -> Seq<Token>
    decreases n,
{
    if n == 0 {
        Seq::empty()
    } else {
        seq![Token::Run { length: piece(n) }] + pieces((n - piece(n)) as nat)
    }
}

/// Bytes coded one at a time.
pub open spec fn literals(bytes: Seq<u8>) -> Seq<Token> {
    Seq::new(bytes.len(), |i: int| Token::Literal { byte: bytes[i] })
}

/// What the bytes from `i` on are cut into: runs of zeros become matches that copy the run's
/// first zero, everything else literals.
pub open spec fn tokens(block: Seq<u8>, i: int) -> Seq<Token>
    decreases block.len() - i,
{
    if i < 0 || i >= block.len() {
        Seq::empty()
    } else if run_at(block, i) {
        let n = zero_run(block, i);
        proof {
            lemma_zero_run(block, i);
        }
        seq![Token::Literal { byte: 0 }] + pieces((n - 1) as nat) + tokens(block, i + n)
    } else {
        seq![Token::Literal { byte: block[i] }] + tokens(block, i + 1)
    }
}

// ---------------------------------------------------------------------------------------
// Frequencies
// ---------------------------------------------------------------------------------------

/// The literal/length symbol of a token.
pub open spec fn symbol_of(token: Token) -> int {
    match token {
        Token::Literal { byte } => byte as int,
        Token::Run { length } => 257 + tables::len_index(length as int),
    }
}

/// Literal/length counts with those of `tokens` added.
pub open spec fn litlen_counts(tokens: Seq<Token>, counts: Seq<u32>) -> Seq<u32>
    decreases tokens.len(),
{
    if tokens.len() == 0 {
        counts
    } else {
        let s = symbol_of(tokens[0]);
        litlen_counts(tokens.skip(1), counts.update(s, (counts[s] + 1) as u32))
    }
}

/// How many of the tokens are matches.
pub open spec fn run_count(tokens: Seq<Token>) -> nat
    decreases tokens.len(),
{
    if tokens.len() == 0 {
        0
    } else {
        run_count(tokens.skip(1)) + if tokens[0] is Run {
            1nat
        } else {
            0nat
        }
    }
}

/// How often each literal/length symbol occurs in a block, its end included.
pub open spec fn block_litlen(block: Seq<u8>) -> Seq<u32> {
    let counts = litlen_counts(tokens(block, 0), Seq::new(286, |s: int| 0u32));
    counts.update(256, (counts[256] + 1) as u32)
}

/// How often each distance symbol occurs in a block: all matches are at distance one.
pub open spec fn block_dist(block: Seq<u8>) -> Seq<u32> {
    Seq::new(30, |s: int| 0u32).update(0, run_count(tokens(block, 0)) as u32)
}

// ---------------------------------------------------------------------------------------
// Bits
// ---------------------------------------------------------------------------------------

/// The codeword of a symbol.
pub open spec fn symbol_bits(lengths: Seq<u8>, symbol: int) -> Seq<bool> {
    bits::lsb(code::written(lengths, symbol), lengths[symbol] as nat)
}

/// A token under a literal/length and a distance code.
pub open spec fn token_bits(litlen: Seq<u8>, dist: Seq<u8>, token: Token) -> Seq<bool> {
    match token {
        Token::Literal { byte } => symbol_bits(litlen, byte as int),
        Token::Run { length } => {
            let i = tables::len_index(length as int);
            symbol_bits(litlen, 257 + i) + bits::lsb(
                (length - tables::LEN_BASE@[i]) as nat,
                tables::LEN_EXTRA@[i] as nat,
            ) + symbol_bits(dist, 0)
        },
    }
}

/// Tokens one after the other.
pub open spec fn tokens_bits(litlen: Seq<u8>, dist: Seq<u8>, tokens: Seq<Token>) -> Seq<bool>
    decreases tokens.len(),
{
    if tokens.len() == 0 {
        Seq::empty()
    } else {
        token_bits(litlen, dist, tokens[0]) + tokens_bits(litlen, dist, tokens.skip(1))
    }
}

// ---------------------------------------------------------------------------------------
// Block header
// ---------------------------------------------------------------------------------------

/// Index of the last symbol below `i` that has a codeword, or zero.
pub open spec fn last_used(lengths: Seq<u8>, i: nat) -> nat
    decreases i,
{
    if i == 0 {
        0
    } else if lengths[i - 1] != 0 {
        (i - 1) as nat
    } else {
        last_used(lengths, (i - 1) as nat)
    }
}

/// Number of literal/length lengths that a header holds.
pub open spec fn hlit(litlen: Seq<u8>) -> nat {
    let last = last_used(litlen, litlen.len());
    if last < 256 {
        257
    } else {
        last + 1
    }
}

/// Number of distance lengths that a header holds.
pub open spec fn hdist(dist: Seq<u8>) -> nat {
    last_used(dist, dist.len()) + 1
}

/// The lengths of both codes, trailing unused symbols left out.
pub open spec fn combined(litlen: Seq<u8>, dist: Seq<u8>) -> Seq<u8> {
    litlen.take(hlit(litlen) as int) + dist.take(hdist(dist) as int)
}

/// How many lengths from `i` on are the same.
pub open spec fn same_run(lengths: Seq<u8>, i: int, length: u8) -> nat
    decreases lengths.len() - i,
{
    if 0 <= i < lengths.len() && lengths[i] == length {
        1 + same_run(lengths, i + 1, length)
    } else {
        0
    }
}

/// A run of equal lengths ends where the lengths do or a different one follows.
pub proof fn lemma_same_run(lengths: Seq<u8>, i: int, length: u8)
    requires
        0 <= i <= lengths.len(),
    ensures
        i + same_run(lengths, i, length) <= lengths.len(),
        forall|j: int| i <= j < i + same_run(lengths, i, length) ==> #[trigger] lengths[j] == length,
        i + same_run(lengths, i, length) < lengths.len() ==> lengths[i + same_run(
            lengths,
            i,
            length,
        )] != length,
    decreases lengths.len() - i,
{
    if i < lengths.len() && lengths[i] == length {
        lemma_same_run(lengths, i + 1, length);
    }
}

/// A run of zero lengths as symbols of the code length alphabet, each with the number of its
/// extra bits and their value.
pub open spec fn zero_groups(run: nat) -> Seq<(u8, u8, u8)>
    decreases run,
{
    if run >= 3 {
        let take = if run < 138 {
            run
        } else {
            138
        };
        let group = if take >= 11 {
            (18u8, 7u8, (take - 11) as u8)
        } else {
            (17u8, 3u8, (take - 3) as u8)
        };
        seq![group] + zero_groups((run - take) as nat)
    } else {
        Seq::new(run, |i: int| (0u8, 0u8, 0u8))
    }
}

/// `run` more of the length that was just given.
pub open spec fn repeat_groups(length: u8, run: nat) -> Seq<(u8, u8, u8)>
    decreases run,
{
    if run >= 3 {
        let take = if run < 6 {
            run
        } else {
            6
        };
        seq![(16u8, 2u8, (take - 3) as u8)] + repeat_groups(length, (run - take) as nat)
    } else {
        Seq::new(run, |i: int| (length, 0u8, 0u8))
    }
}

/// The run-length code of the lengths from `i` on.
pub open spec fn run_lengths(lengths: Seq<u8>, i: int) -> Seq<(u8, u8, u8)>
    decreases lengths.len() - i,
{
    if i < 0 || i >= lengths.len() {
        Seq::empty()
    } else {
        let run = same_run(lengths, i + 1, lengths[i]) + 1;
        proof {
            lemma_same_run(lengths, i + 1, lengths[i]);
        }
        let groups = if lengths[i] == 0 {
            zero_groups(run)
        } else {
            seq![(lengths[i], 0u8, 0u8)] + repeat_groups(lengths[i], (run - 1) as nat)
        };
        groups + run_lengths(lengths, i + run)
    }
}

/// How often each symbol of the code length alphabet occurs.
pub open spec fn clcl_counts(symbols: Seq<(u8, u8, u8)>) -> Seq<u32>
    decreases symbols.len(),
{
    if symbols.len() == 0 {
        Seq::new(19, |s: int| 0u32)
    } else {
        let before = clcl_counts(symbols.drop_last());
        let s = symbols.last().0 as int;
        before.update(s, (before[s] + 1) as u32)
    }
}

/// Number of code length code lengths that must be transmitted: trailing zeros of the fixed
/// order are dropped down to four.
pub open spec fn clcl_count(clcl: Seq<u8>, n: nat) -> nat
    decreases n,
{
    if n <= 4 || clcl[tables::CLCL_ORDER@[n - 1] as int] != 0 {
        n
    } else {
        clcl_count(clcl, (n - 1) as nat)
    }
}

/// The first `n` code length code lengths in the order of the header, three bits each.
pub open spec fn clcl_bits(clcl: Seq<u8>, n: nat) -> Seq<bool>
    decreases n,
{
    if n == 0 {
        Seq::empty()
    } else {
        clcl_bits(clcl, (n - 1) as nat) + bits::lsb(
            clcl[tables::CLCL_ORDER@[n - 1] as int] as nat,
            3,
        )
    }
}

/// Symbols of the code length alphabet with their extra bits.
pub open spec fn length_symbol_bits(clcl: Seq<u8>, symbols: Seq<(u8, u8, u8)>) -> Seq<bool>
    decreases symbols.len(),
{
    if symbols.len() == 0 {
        Seq::empty()
    } else {
        let (symbol, extra_bits, extra) = symbols.last();
        length_symbol_bits(clcl, symbols.drop_last()) + symbol_bits(clcl, symbol as int) + bits::lsb(
            extra as nat,
            extra_bits as nat,
        )
    }
}

/// The code of the code length alphabet that fits the lengths of two codes.
pub open spec fn header_clcl(litlen: Seq<u8>, dist: Seq<u8>) -> Seq<u8> {
    tree::code_lengths(clcl_counts(run_lengths(combined(litlen, dist), 0)), 7)
}

/// A dynamic block's opening bits: whether it is the last, the block type, the two alphabet
/// sizes, and the code that describes the two code length tables.
pub open spec fn header_bits(litlen: Seq<u8>, dist: Seq<u8>, last: bool) -> Seq<bool> {
    let clcl = header_clcl(litlen, dist);
    let hclen = clcl_count(clcl, 19);
    seq![last] + bits::lsb(2, 2) + bits::lsb((hlit(litlen) - 257) as nat, 5) + bits::lsb(
        (hdist(dist) - 1) as nat,
        5,
    ) + bits::lsb((hclen - 4) as nat, 4) + clcl_bits(clcl, hclen) + length_symbol_bits(
        clcl,
        run_lengths(combined(litlen, dist), 0),
    )
}

/// A block coded with the given codes.
pub open spec fn coded_bits(litlen: Seq<u8>, dist: Seq<u8>, block: Seq<u8>, last: bool) -> Seq<bool> {
    header_bits(litlen, dist, last) + tokens_bits(litlen, dist, tokens(block, 0)) + symbol_bits(
        litlen,
        256,
    )
}

// ---------------------------------------------------------------------------------------
// Stored blocks
// ---------------------------------------------------------------------------------------

/// `n` zero bits.
pub open spec fn zero_bits(n: nat) -> Seq<bool> {
    Seq::new(n, |i: int| false)
}

/// One stored block that begins at bit position `p`.
pub open spec fn stored_chunk(p: int, raw: Seq<u8>, last: bool) -> Seq<bool> {
    seq![last] + bits::lsb(0, 2) + zero_bits(bits::padding(p + 3) as nat) + bits::lsb(
        raw.len(),
        16,
    ) + bits::lsb((65535 - raw.len()) as nat, 16) + bits::bits_of(raw)
}

/// Stored blocks of at most 65535 bytes each that begin at bit position `p`.
pub open spec fn stored_bits(p: int, raw: Seq<u8>, last: bool) -> Seq<bool>
    decreases raw.len(),
{
    if raw.len() <= 65535 {
        stored_chunk(p, raw, last)
    } else {
        let first = stored_chunk(p, raw.take(65535), false);
        first + stored_bits(p + first.len(), raw.skip(65535), last)
    }
}

// ---------------------------------------------------------------------------------------
// Choosing codes block by block
// ---------------------------------------------------------------------------------------

/// Input bytes per block.
pub open spec fn block_bytes() -> nat {
    262144
}

/// What the compressor remembers from one block to the next.
pub struct State {
    /// Counts that the next code is built from, unless the block is counted first.
    pub litlen: Seq<u32>,
    pub dist: Seq<u32>,
    /// Bits per byte that the previous block needed, times 256. Without a usable measurement
    /// the next block is counted.
    pub density: Option<nat>,
    /// Blocks since one was last counted before it was written.
    pub since: nat,
}

/// The state before the first block.
pub open spec fn first_state() -> State {
    State {
        litlen: Seq::new(286, |s: int| 0u32),
        dist: Seq::new(30, |s: int| 0u32),
        density: None,
        since: 0,
    }
}

/// Whether the next block is counted before it is written: to begin with, and every few
/// blocks in case the data changes character.
pub open spec fn exact(state: State) -> bool {
    state.density is None || state.since >= 8
}

/// Blocks since the last one that was counted, once the next is written.
pub open spec fn next_since(state: State) -> nat {
    if exact(state) {
        0
    } else {
        state.since + 1
    }
}

/// The counts that a block's codes are built from, with every literal/length symbol raised by
/// one so that it gets a codeword whether or not it occurred.
pub open spec fn litlen_freq(state: State, block: Seq<u8>) -> Seq<u32> {
    let counts = if exact(state) {
        block_litlen(block)
    } else {
        state.litlen
    };
    Seq::new(counts.len(), |s: int| (counts[s] + 1) as u32)
}

pub open spec fn dist_freq(state: State, block: Seq<u8>) -> Seq<u32> {
    if exact(state) {
        block_dist(block)
    } else {
        state.dist
    }
}

/// The literal/length code of a block.
pub open spec fn litlen_code(state: State, block: Seq<u8>) -> Seq<u8> {
    tree::code_lengths(litlen_freq(state, block), 12)
}

/// The distance code of a block.
pub open spec fn dist_code(state: State, block: Seq<u8>) -> Seq<u8> {
    tree::code_lengths(dist_freq(state, block), 12)
}

/// Bits that the codewords of the first `n` literal/length symbols take.
pub open spec fn litlen_cost(freq: Seq<u32>, lengths: Seq<u8>, n: nat) -> nat
    decreases n,
{
    if n == 0 {
        0
    } else {
        litlen_cost(freq, lengths, (n - 1) as nat) + freq[n - 1] as nat * lengths[n - 1] as nat
    }
}

/// Extra bits that the first `n` length symbols take.
pub open spec fn extra_cost(freq: Seq<u32>, n: nat) -> nat
    decreases n,
{
    if n == 0 {
        0
    } else {
        extra_cost(freq, (n - 1) as nat) + freq[257 + n - 1] as nat * tables::LEN_EXTRA@[n
            - 1] as nat
    }
}

/// Bits that the first `n` distance symbols take.
pub open spec fn dist_cost(freq: Seq<u32>, lengths: Seq<u8>, n: nat) -> nat
    decreases n,
{
    if n == 0 {
        0
    } else {
        dist_cost(freq, lengths, (n - 1) as nat) + freq[n - 1] as nat * (lengths[n - 1]
            + tables::DIST_EXTRA@[n - 1]) as nat
    }
}

/// Bits that the counted symbols take under the given codes.
pub open spec fn token_cost(
    litlen_freq: Seq<u32>,
    dist_freq: Seq<u32>,
    litlen: Seq<u8>,
    dist: Seq<u8>,
) -> nat {
    litlen_cost(litlen_freq, litlen, 286) + extra_cost(litlen_freq, 29) + dist_cost(
        dist_freq,
        dist,
        30,
    )
}

/// What coding a block is expected to cost: its header, and its symbols by their counts or by
/// the previous block's measurement.
pub open spec fn estimate(state: State, block: Seq<u8>) -> nat {
    let litlen = litlen_code(state, block);
    let dist = dist_code(state, block);
    header_bits(litlen, dist, false).len() + if exact(state) {
        token_cost(litlen_freq(state, block), dist_freq(state, block), litlen, dist)
    } else {
        state.density->0 * block.len() / 256
    }
}

/// What storing a block costs at most.
pub open spec fn stored_cost(block: Seq<u8>) -> nat {
    42 + 8 * block.len()
}

/// Whether a block is stored rather than coded, which keeps incompressible input from
/// growing.
pub open spec fn stores(state: State, block: Seq<u8>) -> bool {
    stored_cost(block) < estimate(state, block)
}

/// A measurement of bits per byte. A block less than half full says more about its header
/// than about the data and gives none.
pub open spec fn measured(cost: nat, bytes: nat) -> Option<nat> {
    if bytes < block_bytes() / 2 {
        None
    } else if cost * 256 / bytes == 0 {
        Some(1)
    } else {
        Some(cost * 256 / bytes)
    }
}

/// The bits of a block that begins at position `p`.
#[verifier::opaque]
pub open spec fn block_out(state: State, block: Seq<u8>, last: bool, p: int) -> Seq<bool> {
    if stores(state, block) {
        stored_bits(p, block, last)
    } else {
        coded_bits(litlen_code(state, block), dist_code(state, block), block, last)
    }
}

/// The state behind a block.
#[verifier::opaque]
pub open spec fn block_state(state: State, block: Seq<u8>) -> State {
    let since = next_since(state);
    if stores(state, block) {
        State {
            litlen: litlen_freq(state, block),
            dist: dist_freq(state, block),
            density: measured(estimate(state, block), block.len()),
            since,
        }
    } else {
        State {
            litlen: block_litlen(block),
            dist: block_dist(block),
            density: measured(
                coded_bits(
                    litlen_code(state, block),
                    dist_code(state, block),
                    block,
                    false,
                ).len(),
                block.len(),
            ),
            since,
        }
    }
}

/// The bits of `input`, block by block, from position `p` on. The very last block carries the
/// `last` mark.
pub open spec fn deflate_bits(state: State, input: Seq<u8>, last: bool, p: int) -> Seq<bool>
    decreases input.len(),
{
    if input.len() <= block_bytes() {
        block_out(state, input, last, p)
    } else {
        let first = input.take(block_bytes() as int);
        let bits = block_out(state, first, false, p);
        bits + deflate_bits(
            block_state(state, first),
            input.skip(block_bytes() as int),
            last,
            p + bits.len(),
        )
    }
}

/// The state behind `input`.
pub open spec fn deflate_state(state: State, input: Seq<u8>) -> State
    decreases input.len(),
{
    if input.len() <= block_bytes() {
        block_state(state, input)
    } else {
        deflate_state(
            block_state(state, input.take(block_bytes() as int)),
            input.skip(block_bytes() as int),
        )
    }
}

// ---------------------------------------------------------------------------------------
// The zlib framing
// ---------------------------------------------------------------------------------------

/// The number that `n` bits from `i` on spell, least significant bit first.
pub open spec fn number(bits: Seq<bool>, i: int, n: nat) -> nat
    decreases n,
{
    if n == 0 {
        0
    } else {
        let m = (n - 1) as nat;
        number(bits, i, m) + pow2(m) * if bits[i + m] {
            1nat
        } else {
            0nat
        }
    }
}

/// The whole bytes that `bits` fill.
pub open spec fn whole_bytes(bits: Seq<bool>) -> Seq<u8> {
    Seq::new(bits.len() / 8, |i: int| number(bits, 8 * i, 8) as u8)
}

/// `bits` with zeros up to the next byte boundary.
pub open spec fn aligned(bits: Seq<bool>) -> Seq<bool> {
    bits + zero_bits(bits::padding(bits.len() as int) as nat)
}

/// A DEFLATE stream of `input`.
pub open spec fn raw_bytes(input: Seq<u8>) -> Seq<u8> {
    whole_bytes(aligned(deflate_bits(first_state(), input, true, 0)))
}

/// The four bytes of a number, most significant first.
pub open spec fn be_bytes(v: nat) -> Seq<u8> {
    seq![
        ((v / 16777216) % 256) as u8,
        ((v / 65536) % 256) as u8,
        ((v / 256) % 256) as u8,
        (v % 256) as u8,
    ]
}

/// How far a zlib stream has come.
pub struct Progress {
    pub state: State,
    /// The DEFLATE bits so far.
    pub bits: Seq<bool>,
    /// The bytes that went in so far.
    pub data: Seq<u8>,
}

/// A zlib stream that nothing went into yet.
pub open spec fn started() -> Progress {
    Progress { state: first_state(), bits: Seq::empty(), data: Seq::empty() }
}

/// A zlib stream with one more piece of input. An empty piece in the middle adds nothing.
pub open spec fn pushed(progress: Progress, piece: Seq<u8>, last: bool) -> Progress {
    if piece.len() == 0 && !last {
        progress
    } else {
        Progress {
            state: deflate_state(progress.state, piece),
            bits: progress.bits + deflate_bits(
                progress.state,
                piece,
                last,
                progress.bits.len() as int,
            ),
            data: progress.data + piece,
        }
    }
}

/// The bytes of a finished zlib stream: header, DEFLATE data, checksum.
pub open spec fn finished(progress: Progress) -> Seq<u8> {
    seq![0x78u8, 0x01u8] + whole_bytes(aligned(progress.bits)) + be_bytes(
        adler32::checksum(progress.data),
    )
}

/// The zlib stream of `input` as one piece.
pub open spec fn zlib_bytes(input: Seq<u8>) -> Seq<u8> {
    finished(pushed(started(), input, true))
}

/// The bytes of a zlib stream that has not ended.
pub open spec fn so_far(progress: Progress) -> Seq<u8> {
    seq![0x78u8, 0x01u8] + whole_bytes(progress.bits)
}

/// A zlib stream after the first `n` pieces, none of them the last.
pub open spec fn after_pieces(pieces: Seq<Seq<u8>>, n: nat) -> Progress
    decreases n,
{
    if n == 0 {
        started()
    } else {
        pushed(after_pieces(pieces, (n - 1) as nat), pieces[n - 1], false)
    }
}

/// The zlib stream of several pieces.
pub open spec fn zlib_of_pieces(pieces: Seq<Seq<u8>>) -> Seq<u8> {
    let n = (pieces.len() - 1) as nat;
    finished(pushed(after_pieces(pieces, n), pieces[n as int], true))
}

/// The pieces one after the other.
pub open spec fn joined(pieces: Seq<Seq<u8>>, n: nat) -> Seq<u8>
    decreases n,
{
    if n == 0 {
        Seq::empty()
    } else {
        joined(pieces, (n - 1) as nat) + pieces[n - 1]
    }
}

} // verus!
