//! How large compressed data gets.

use vstd::prelude::*;
use crate::bits;
use crate::encoding;
use crate::encoding::{State, Token};
use crate::roundtrip;
use crate::tables;
use crate::tree;

verus! {

/// Tokens whose runs are of lengths that a match can have.
spec fn proper_runs(tokens: Seq<Token>) -> bool {
    forall|i: int|
        0 <= i < tokens.len() ==> (#[trigger] tokens[i] matches Token::Run { length } ==> 3
            <= length <= 258)
}

/// Bits that the literal/length symbols of tokens take, with their extra bits.
spec fn spent(litlen: Seq<u8>, tokens: Seq<Token>) -> nat
    decreases tokens.len(),
{
    if tokens.len() == 0 {
        0
    } else {
        let symbol = encoding::symbol_of(tokens[0]);
        litlen[symbol] as nat + (if tokens[0] is Run {
            tables::LEN_EXTRA@[symbol - 257] as nat
        } else {
            0
        }) + spent(litlen, tokens.skip(1))
    }
}

proof fn lemma_proper_rest(tokens: Seq<Token>)
    requires
        proper_runs(tokens),
        tokens.len() > 0,
    ensures
        proper_runs(tokens.skip(1)),
{
    let rest = tokens.skip(1);
    assert forall|i: int| 0 <= i < rest.len() implies (#[trigger] rest[i] matches Token::Run {
        length,
    } ==> 3 <= length <= 258) by {
        assert(rest[i] == tokens[i + 1]);
    }
}

/// The bits of tokens: those of their symbols, and one distance codeword per match.
proof fn lemma_tokens_bits(litlen: Seq<u8>, dist: Seq<u8>, tokens: Seq<Token>)
    requires
        proper_runs(tokens),
    ensures
        encoding::tokens_bits(litlen, dist, tokens).len() == spent(litlen, tokens)
            + encoding::run_count(tokens) * dist[0] as nat,
    decreases tokens.len(),
{
    if tokens.len() > 0 {
        lemma_proper_rest(tokens);
        lemma_tokens_bits(litlen, dist, tokens.skip(1));
        let d = dist[0] as nat;
        let rest = encoding::run_count(tokens.skip(1));
        assert((rest + 1) * d == rest * d + d) by (nonlinear_arith);
        if let Token::Run { length } = tokens[0] {
            tables::lemma_len_index(length as int);
        }
    } else {
        assert(0nat * dist[0] as nat == 0) by (nonlinear_arith);
    }
}

/// Counting a symbol once more adds its codeword to the cost.
proof fn lemma_litlen_cost(counts: Seq<u32>, lengths: Seq<u8>, s: int, n: nat)
    requires
        0 <= s < counts.len(),
        counts[s] < u32::MAX,
        n <= counts.len(),
    ensures
        encoding::litlen_cost(counts.update(s, (counts[s] + 1) as u32), lengths, n)
            == encoding::litlen_cost(counts, lengths, n) + if s < n {
            lengths[s] as nat
        } else {
            0
        },
    decreases n,
{
    if n > 0 {
        lemma_litlen_cost(counts, lengths, s, (n - 1) as nat);
        let c = counts[n - 1] as nat;
        let l = lengths[n - 1] as nat;
        assert((c + 1) * l == c * l + l) by (nonlinear_arith);
    }
}

/// Counting a symbol once more adds its extra bits to the cost.
proof fn lemma_extra_cost(counts: Seq<u32>, s: int, n: nat)
    requires
        counts.len() == 286,
        0 <= s < 286,
        counts[s] < u32::MAX,
        n <= 29,
    ensures
        encoding::extra_cost(counts.update(s, (counts[s] + 1) as u32), n) == encoding::extra_cost(
            counts,
            n,
        ) + if 257 <= s < 257 + n {
            tables::LEN_EXTRA@[s - 257] as nat
        } else {
            0
        },
    decreases n,
{
    if n > 0 {
        lemma_extra_cost(counts, s, (n - 1) as nat);
        let c = counts[257 + n - 1] as nat;
        let l = tables::LEN_EXTRA@[n - 1] as nat;
        assert((c + 1) * l == c * l + l) by (nonlinear_arith);
    }
}

/// The cost by counts is the cost by tokens.
proof fn lemma_spent(litlen: Seq<u8>, tokens: Seq<Token>, counts: Seq<u32>, most: int)
    requires
        counts.len() == 286,
        forall|s: int| 0 <= s < 286 ==> #[trigger] counts[s] <= most,
        most + tokens.len() <= 0x7fff_ffff,
        proper_runs(tokens),
    ensures
        ({
            let all = encoding::litlen_counts(tokens, counts);
            encoding::litlen_cost(all, litlen, 286) + encoding::extra_cost(all, 29)
                == encoding::litlen_cost(counts, litlen, 286) + encoding::extra_cost(counts, 29)
                + spent(litlen, tokens)
        }),
    decreases tokens.len(),
{
    if tokens.len() > 0 {
        let t = encoding::symbol_of(tokens[0]);
        if let Token::Run { length } = tokens[0] {
            tables::lemma_len_index(length as int);
        }
        let next = counts.update(t, (counts[t] + 1) as u32);
        assert forall|s: int| 0 <= s < 286 implies #[trigger] next[s] <= most + 1 by {
            assert(counts[s] <= most);
        }
        assert(counts[t] <= most);
        lemma_proper_rest(tokens);
        lemma_spent(litlen, tokens.skip(1), next, most + 1);
        lemma_litlen_cost(counts, litlen, t, 286);
        lemma_extra_cost(counts, t, 29);
    }
}

/// Raising every count by one adds every codeword once.
proof fn lemma_raised_cost(counts: Seq<u32>, freq: Seq<u32>, lengths: Seq<u8>, n: nat)
    requires
        counts.len() == 286,
        freq.len() == 286,
        forall|s: int| 0 <= s < 286 ==> #[trigger] freq[s] == counts[s] + 1,
        lengths.len() == 286,
        forall|s: int| 0 <= s < 286 ==> #[trigger] lengths[s] > 0,
        n <= 286,
    ensures
        encoding::litlen_cost(counts, lengths, n) + n <= encoding::litlen_cost(freq, lengths, n),
    decreases n,
{
    if n > 0 {
        lemma_raised_cost(counts, freq, lengths, (n - 1) as nat);
        assert(freq[n - 1] == counts[n - 1] + 1);
        assert(lengths[n - 1] > 0);
        let (c, l) = (counts[n - 1] as nat, lengths[n - 1] as nat);
        assert(c * l + 1 <= (c + 1) * l) by (nonlinear_arith)
            requires
                l >= 1,
        ;
    }
}

proof fn lemma_raised_extra(counts: Seq<u32>, freq: Seq<u32>, m: nat)
    requires
        counts.len() == 286,
        freq.len() == 286,
        forall|s: int| 0 <= s < 286 ==> #[trigger] freq[s] == counts[s] + 1,
        m <= 29,
    ensures
        encoding::extra_cost(counts, m) <= encoding::extra_cost(freq, m),
    decreases m,
{
    if m > 0 {
        lemma_raised_extra(counts, freq, (m - 1) as nat);
        assert(freq[257 + m - 1] == counts[257 + m - 1] + 1);
        let (c, l) = (counts[257 + m - 1] as nat, tables::LEN_EXTRA@[m - 1] as nat);
        assert(c * l <= (c + 1) * l) by (nonlinear_arith);
    }
}

/// The distance cost covers the one symbol that is used.
proof fn lemma_dist_cost(freq: Seq<u32>, dist: Seq<u8>, n: nat)
    requires
        1 <= n <= 30,
        freq.len() == 30,
    ensures
        encoding::dist_cost(freq, dist, n) >= freq[0] as nat * dist[0] as nat,
    decreases n,
{
    if n > 1 {
        lemma_dist_cost(freq, dist, (n - 1) as nat);
    } else {
        assert(encoding::dist_cost(freq, dist, 0) == 0);
        let (f, d, e) = (freq[0] as nat, dist[0], tables::DIST_EXTRA@[0]);
        assert(f * (d + e) as nat >= f * d as nat) by (nonlinear_arith);
    }
}

/// Coding a block that was counted costs less than the estimate: every symbol is counted once
/// more than it occurs.
proof fn lemma_estimate(state: State, block: Seq<u8>, last: bool)
    requires
        encoding::exact(state),
        block.len() <= encoding::block_bytes(),
    ensures
        encoding::coded_bits(
            encoding::litlen_code(state, block),
            encoding::dist_code(state, block),
            block,
            last,
        ).len() + 286 <= encoding::estimate(state, block),
{
    let litlen = encoding::litlen_code(state, block);
    let dist = encoding::dist_code(state, block);
    let tokens = encoding::tokens(block, 0);
    let none = Seq::new(286, |s: int| 0u32);
    let counts = encoding::litlen_counts(tokens, none);
    let all = encoding::block_litlen(block);
    let freq = encoding::litlen_freq(state, block);
    roundtrip::lemma_tokens_len(block, 0);
    roundtrip::lemma_expand_tokens(Seq::empty(), block, 0);
    roundtrip::lemma_litlen_counts(tokens, none, 0);
    roundtrip::lemma_block_counts(block);
    lemma_tokens_bits(litlen, dist, tokens);
    lemma_spent(litlen, tokens, none, 0);
    lemma_litlen_cost(counts, litlen, 256, 286);
    lemma_extra_cost(counts, 256, 29);
    assert forall|s: int| 0 <= s < 286 implies #[trigger] freq[s] == all[s] + 1 by {
        assert(all[s] <= 262145);
    }
    assert(litlen.len() == 286 && forall|s: int| 0 <= s < 286 ==> #[trigger] litlen[s] > 0) by {
        tree::lemma_ranked(freq, 286);
        bits::lemma_pow2_small();
        tree::law_code_lengths(freq, 12);
        assert forall|s: int| 0 <= s < 286 implies #[trigger] litlen[s] > 0 by {
            assert(freq[s] == all[s] + 1);
        }
    }
    lemma_raised_cost(all, freq, litlen, 286);
    lemma_raised_extra(all, freq, 29);
    lemma_dist_cost(encoding::dist_freq(state, block), dist, 30);
    assert(encoding::header_bits(litlen, dist, last).len() == encoding::header_bits(
        litlen,
        dist,
        false,
    ).len());
}

/// How many stored blocks `n` bytes take: one for every 65535 bytes begun, and at least one.
pub open spec fn stored_blocks(n: nat) -> nat {
    if n == 0 {
        1
    } else {
        (n + 65534) / 65535
    }
}

/// A stored block costs 40 bits where it begins at a byte, and at most 42 elsewhere.
proof fn lemma_stored_len(p: int, raw: Seq<u8>, last: bool)
    requires
        0 <= p,
    ensures
        encoding::stored_bits(p, raw, last).len() <= 8 * raw.len() + 40 * stored_blocks(raw.len())
            + 2,
        p % 8 == 0 ==> encoding::stored_bits(p, raw, last).len() == 8 * raw.len() + 40
            * stored_blocks(raw.len()),
    decreases raw.len(),
{
    if raw.len() > 65535 {
        let head = raw.take(65535);
        let first = encoding::stored_chunk(p, head, false);
        assert(bits::bits_of(head).len() == 8 * 65535);
        assert((p + first.len()) % 8 == 0);
        lemma_stored_len(p + first.len(), raw.skip(65535), last);
    } else {
        assert(bits::bits_of(raw).len() == 8 * raw.len());
    }
}

/// The length of a block header does not depend on whether the block is the last one: written
/// behind any bits, it adds as many as are reported of it.
pub proof fn law_header_takes_what_is_reported(
    litlen: Seq<u8>,
    dist: Seq<u8>,
    written: Seq<bool>,
    last: bool,
)
    ensures
        (written + encoding::header_bits(litlen, dist, last)).len() == written.len()
            + encoding::header_bits(litlen, dist, false).len(),
{
}

/// A block that was counted before it was written takes no more room than storing it, which
/// is 40 bits for every 65535 bytes begun and two for where the block begins. Incompressible
/// input does not grow beyond that.
pub proof fn law_counted_block_does_not_grow(state: State, block: Seq<u8>, last: bool, p: int)
    requires
        encoding::exact(state),
        block.len() <= encoding::block_bytes(),
        0 <= p,
    ensures
        encoding::block_out(state, block, last, p).len() <= 8 * block.len() + 40 * stored_blocks(
            block.len(),
        ) + 2,
        p % 8 == 0 ==> encoding::block_out(state, block, last, p).len() <= 8 * block.len() + 40
            * stored_blocks(block.len()),
{
    reveal(encoding::block_out);
    lemma_stored_len(p, block, last);
    lemma_estimate(state, block, last);
}

/// A zlib stream of at most one block is larger than its input by no more than the framing
/// and the cost of storing it: eleven bytes, and five more for every further 65535 begun.
pub proof fn law_small_input_does_not_grow(input: Seq<u8>)
    requires
        input.len() <= encoding::block_bytes(),
    ensures
        encoding::zlib_bytes(input).len() <= input.len() + 6 + 5 * stored_blocks(input.len()),
        input.len() <= 65535 ==> encoding::zlib_bytes(input).len() <= input.len() + 11,
{
    let state = encoding::first_state();
    law_counted_block_does_not_grow(state, input, true, 0);
    let packed = encoding::deflate_bits(state, input, true, 0);
    let whole = encoding::pushed(encoding::started(), input, true);
    assert(whole.bits =~= packed);
    roundtrip::lemma_aligned(packed);
}

// ---------------------------------------------------------------------------------------
// Runs of zeros
// ---------------------------------------------------------------------------------------

proof fn lemma_pieces_count(n: nat)
    requires
        n == 0 || n >= 3,
    ensures
        encoding::pieces(n).len() == (n + 257) / 258,
        forall|i: int|
            0 <= i < encoding::pieces(n).len() ==> (#[trigger] encoding::pieces(n)[i] matches Token::Run {
                length,
            } && 3 <= length <= 258),
    decreases n,
{
    if n > 0 {
        let k = encoding::piece(n);
        let m = (n - k) as nat;
        lemma_pieces_count(m);
        let all = encoding::pieces(n);
        assert forall|i: int| 0 <= i < all.len() implies (#[trigger] all[i] matches Token::Run {
            length,
        } && 3 <= length <= 258) by {
            if i > 0 {
                assert(all[i] == encoding::pieces(m)[i - 1]);
            }
        }
    }
}

proof fn lemma_run_length(block: Seq<u8>, s: int, n: nat)
    requires
        0 <= s,
        s + n <= block.len(),
        forall|j: int| s <= j < s + n ==> #[trigger] block[j] == 0,
        s + n < block.len() ==> block[s + n] != 0,
    ensures
        encoding::zero_run(block, s) == n,
    decreases n,
{
    if n > 0 {
        lemma_run_length(block, s + 1, (n - 1) as nat);
    }
}

/// Four or more zeros in a row that begin at least eight bytes before the end of a block are
/// written as one literal and as few matches as cover the others, 258 of them each at most.
pub proof fn law_zeros_are_matched(block: Seq<u8>, s: int, n: nat)
    requires
        0 <= s,
        4 <= n,
        s + n <= block.len(),
        s + 8 <= block.len(),
        forall|j: int| s <= j < s + n ==> #[trigger] block[j] == 0,
        s + n < block.len() ==> block[s + n] != 0,
    ensures
        ({
            let all = encoding::tokens(block, s);
            let k = (n - 1 + 257) / 258;
            &&& all.len() == 1 + k + encoding::tokens(block, s + n).len()
            &&& all[0] == (Token::Literal { byte: 0 })
            &&& forall|i: int|
                1 <= i < 1 + k ==> (#[trigger] all[i] matches Token::Run { length } && 3 <= length
                    <= 258)
            &&& all.skip(1 + k) == encoding::tokens(block, s + n)
        }),
{
    let all = encoding::tokens(block, s);
    let pieces = encoding::pieces((n - 1) as nat);
    let rest = encoding::tokens(block, s + n);
    let k = (n - 1 + 257) / 258;
    lemma_run_length(block, s, n);
    lemma_pieces_count((n - 1) as nat);
    assert(all == seq![Token::Literal { byte: 0 }] + pieces + rest);
    assert forall|i: int| 1 <= i < 1 + k implies (#[trigger] all[i] matches Token::Run { length }
        && 3 <= length <= 258) by {
        assert(all[i] == pieces[i - 1]);
    }
    assert(all.skip(1 + k) =~= rest);
}

/// Every other byte is written as a literal.
pub proof fn law_other_bytes_are_literals(block: Seq<u8>, i: int, j: int)
    requires
        0 <= i < block.len(),
        i + 8 > block.len() || i <= j < i + 4 && block[j] != 0,
    ensures
        encoding::tokens(block, i) == seq![Token::Literal { byte: block[i] }] + encoding::tokens(
            block,
            i + 1,
        ),
{
    encoding::lemma_zero_run(block, i);
}

// ---------------------------------------------------------------------------------------
// What a block takes at most
// ---------------------------------------------------------------------------------------

proof fn lemma_raised_most(counts: Seq<u32>, freq: Seq<u32>, lengths: Seq<u8>, n: nat)
    requires
        counts.len() == 286,
        freq.len() == 286,
        forall|s: int| 0 <= s < 286 ==> #[trigger] freq[s] == counts[s] + 1,
        lengths.len() == 286,
        forall|s: int| 0 <= s < 286 ==> #[trigger] lengths[s] <= 12,
        n <= 286,
    ensures
        encoding::litlen_cost(freq, lengths, n) <= encoding::litlen_cost(counts, lengths, n) + 12
            * n,
    decreases n,
{
    if n > 0 {
        lemma_raised_most(counts, freq, lengths, (n - 1) as nat);
        assert(freq[n - 1] == counts[n - 1] + 1);
        assert(lengths[n - 1] <= 12);
        let (c, l) = (counts[n - 1] as nat, lengths[n - 1] as nat);
        assert((c + 1) * l <= c * l + 12) by (nonlinear_arith)
            requires
                l <= 12,
        ;
    }
}

proof fn lemma_raised_extra_most(counts: Seq<u32>, freq: Seq<u32>, m: nat)
    requires
        counts.len() == 286,
        freq.len() == 286,
        forall|s: int| 0 <= s < 286 ==> #[trigger] freq[s] == counts[s] + 1,
        m <= 29,
    ensures
        encoding::extra_cost(freq, m) <= encoding::extra_cost(counts, m) + 5 * m,
    decreases m,
{
    if m > 0 {
        lemma_raised_extra_most(counts, freq, (m - 1) as nat);
        tables::lemma_len_range();
        assert(freq[257 + m - 1] == counts[257 + m - 1] + 1);
        assert(tables::LEN_EXTRA@[m - 1] <= 5);
        let (c, l) = (counts[257 + m - 1] as nat, tables::LEN_EXTRA@[m - 1] as nat);
        assert((c + 1) * l <= c * l + 5) by (nonlinear_arith)
            requires
                l <= 5,
        ;
    }
}

/// Where only the first distance symbol is used it is all that is paid for.
proof fn lemma_dist_most(freq: Seq<u32>, dist: Seq<u8>, n: nat)
    requires
        1 <= n <= 30,
        freq.len() == 30,
        forall|s: int| 1 <= s < 30 ==> #[trigger] freq[s] == 0,
    ensures
        encoding::dist_cost(freq, dist, n) == freq[0] as nat * dist[0] as nat,
    decreases n,
{
    if n > 1 {
        lemma_dist_most(freq, dist, (n - 1) as nat);
        assert(freq[n - 1] == 0);
        assert(0 * (dist[n - 1] + tables::DIST_EXTRA@[n - 1]) as nat == 0);
    } else {
        assert(encoding::dist_cost(freq, dist, 0) == 0);
        assert(tables::DIST_EXTRA@[0] == 0);
    }
}

/// The estimate for a block that was counted is not far above what coding it takes.
proof fn lemma_estimate_most(state: State, block: Seq<u8>, last: bool)
    requires
        encoding::exact(state),
        block.len() <= encoding::block_bytes(),
        roundtrip::writable(
            encoding::litlen_code(state, block),
            encoding::dist_code(state, block),
        ),
        forall|s: int| 0 <= s < 286 ==> #[trigger] encoding::litlen_code(state, block)[s] <= 12,
    ensures
        encoding::estimate(state, block) <= encoding::coded_bits(
            encoding::litlen_code(state, block),
            encoding::dist_code(state, block),
            block,
            last,
        ).len() + 3600,
{
    let litlen = encoding::litlen_code(state, block);
    let dist = encoding::dist_code(state, block);
    let tokens = encoding::tokens(block, 0);
    let none = Seq::new(286, |s: int| 0u32);
    let counts = encoding::litlen_counts(tokens, none);
    let all = encoding::block_litlen(block);
    let freq = encoding::litlen_freq(state, block);
    roundtrip::lemma_tokens_len(block, 0);
    roundtrip::lemma_expand_tokens(Seq::empty(), block, 0);
    roundtrip::lemma_litlen_counts(tokens, none, 0);
    roundtrip::lemma_block_counts(block);
    lemma_tokens_bits(litlen, dist, tokens);
    lemma_spent(litlen, tokens, none, 0);
    lemma_none_spent(none, litlen, 286, 29);
    lemma_litlen_cost(counts, litlen, 256, 286);
    lemma_extra_cost(counts, 256, 29);
    assert forall|s: int| 0 <= s < 286 implies #[trigger] freq[s] == all[s] + 1 by {
        assert(all[s] <= 262145);
    }
    lemma_raised_most(all, freq, litlen, 286);
    lemma_raised_extra_most(all, freq, 29);
    lemma_dist_most(encoding::dist_freq(state, block), dist, 30);
    assert(encoding::header_bits(litlen, dist, last).len() == encoding::header_bits(
        litlen,
        dist,
        false,
    ).len());
}

proof fn lemma_none_spent(none: Seq<u32>, litlen: Seq<u8>, n: nat, m: nat)
    requires
        none == Seq::new(286, |s: int| 0u32),
        n <= 286,
        m <= 29,
    ensures
        encoding::litlen_cost(none, litlen, n) == 0,
        encoding::extra_cost(none, m) == 0,
    decreases n + m,
{
    if n > 0 {
        lemma_none_spent(none, litlen, (n - 1) as nat, m);
        assert(0 * litlen[n - 1] as nat == 0);
    } else if m > 0 {
        lemma_none_spent(none, litlen, n, (m - 1) as nat);
        assert(0 * tables::LEN_EXTRA@[m - 1] as nat == 0);
    }
}

/// A block that was counted before it was written takes no more than a fixed amount and 29
/// bits for each of its literals and matches, so that input full of zeros shrinks.
pub proof fn law_counted_block_pays_by_symbol(state: State, block: Seq<u8>, last: bool, p: int)
    requires
        encoding::exact(state),
        roundtrip::state_ok(state),
        block.len() <= encoding::block_bytes(),
        0 <= p,
    ensures
        encoding::block_out(state, block, last, p).len() <= 9000 + 29 * encoding::tokens(
            block,
            0,
        ).len(),
{
    reveal(encoding::block_out);
    let litlen = encoding::litlen_code(state, block);
    let dist = encoding::dist_code(state, block);
    roundtrip::lemma_block_codes(state, block);
    roundtrip::lemma_coded_most(litlen, dist, block, last);
    lemma_estimate_most(state, block, last);
    lemma_stored_len(p, block, last);
}

/// A zlib stream of up to 262144 zeros takes little more than a sixty-fourth of them.
pub proof fn law_zeros_shrink(n: nat)
    requires
        n <= 262144,
    ensures
        encoding::zlib_bytes(Seq::new(n, |i: int| 0u8)).len() <= 1200 + n / 64,
{
    let input = Seq::new(n, |i: int| 0u8);
    let state = encoding::first_state();
    roundtrip::lemma_tokens_len(input, 0);
    if n >= 8 {
        law_zeros_are_matched(input, 0, n);
        assert(encoding::tokens(input, n as int).len() == 0);
    }
    law_counted_block_pays_by_symbol(state, input, true, 0);
    let packed = encoding::deflate_bits(state, input, true, 0);
    let whole = encoding::pushed(encoding::started(), input, true);
    assert(whole.bits =~= packed);
    roundtrip::lemma_aligned(packed);
}

} // verus!
