//! What the compressor writes, a decompressor reads back.

use vstd::prelude::*;
use vstd::arithmetic::power2::*;
use vstd::arithmetic::div_mod::*;
use crate::adler32;
use crate::bits;
use crate::code;
use crate::encoding;
use crate::encoding::Token;
use crate::inflate::InflateError;
use crate::stream;
use crate::tables;
use crate::tree;

verus! {

// ---------------------------------------------------------------------------------------
// Symbols of a block
// ---------------------------------------------------------------------------------------

/// What `out` grows to when the tokens are carried out.
pub open spec fn expand(out: Seq<u8>, tokens: Seq<Token>) -> Seq<u8>
    decreases tokens.len(),
{
    if tokens.len() == 0 {
        out
    } else {
        let next = match tokens[0] {
            Token::Literal { byte } => out.push(byte),
            Token::Run { length } => stream::copy_match(out, 1, length),
        };
        expand(next, tokens.skip(1))
    }
}

/// Whether a code has a codeword for everything that a token needs.
pub open spec fn encodable(litlen: Seq<u8>, dist: Seq<u8>, token: Token) -> bool {
    match token {
        Token::Literal { byte } => code::has_code(litlen, byte as int),
        Token::Run { length } => 3 <= length <= 258 && code::has_code(
            litlen,
            257 + tables::len_index(length as int),
        ) && code::has_code(dist, 0),
    }
}

proof fn lemma_expand_grows(out: Seq<u8>, tokens: Seq<Token>)
    ensures
        expand(out, tokens).len() >= out.len(),
    decreases tokens.len(),
{
    if tokens.len() > 0 {
        match tokens[0] {
            Token::Literal { byte } => {
                lemma_expand_grows(out.push(byte), tokens.skip(1));
            },
            Token::Run { length } => {
                stream::lemma_copy_match_len(out, 1, length);
                lemma_expand_grows(stream::copy_match(out, 1, length), tokens.skip(1));
            },
        }
    }
}

/// The bits of a match's length and distance are read back.
proof fn lemma_run_reads(litlen: Seq<u8>, dist: Seq<u8>, data: Seq<u8>, p: int, length: nat)
    requires
        code::fits(litlen),
        code::fits(dist),
        encodable(litlen, dist, Token::Run { length }),
        bits::holds(data, p, encoding::token_bits(litlen, dist, Token::Run { length })),
    ensures
        ({
            let i = tables::len_index(length as int);
            let q = p + litlen[257 + i];
            &&& 0 <= i < 29
            &&& code::decode(litlen, data, p) == Some(257 + i)
            &&& stream::back_reference(dist, data, q, i) == Ok::<(nat, int, int), InflateError>(
                (
                    length,
                    1,
                    p + encoding::token_bits(litlen, dist, Token::Run { length }).len(),
                ),
            )
        }),
{
    let i = tables::len_index(length as int);
    tables::lemma_len_index(length as int);
    tables::lemma_len_range();
    tables::lemma_dist_range();
    let symbol = encoding::symbol_bits(litlen, 257 + i);
    let value = (length - tables::LEN_BASE@[i]) as nat;
    let extra = tables::LEN_EXTRA@[i] as nat;
    let more = bits::lsb(value, extra);
    let far = encoding::symbol_bits(dist, 0);
    bits::lemma_holds_concat(data, p, symbol + more, far);
    bits::lemma_holds_concat(data, p, symbol, more);
    code::lemma_written_code(litlen, data, p, 257 + i);
    let q = p + litlen[257 + i];
    bits::lemma_holds_value(data, q, value, extra);
    let r = q + extra;
    assert(r == p + (symbol + more).len());
    code::lemma_written_code(dist, data, r, 0);
    assert(tables::DIST_EXTRA@[0] == 0);
    assert(bits::value(data, r + dist[0], 0) == 0);
}

/// Coded tokens are carried out.
pub proof fn lemma_tokens_read(
    litlen: Seq<u8>,
    dist: Seq<u8>,
    data: Seq<u8>,
    p: int,
    out: Seq<u8>,
    tokens: Seq<Token>,
    limit: nat,
)
    requires
        code::fits(litlen),
        code::fits(dist),
        code::has_code(litlen, 256),
        forall|i: int| 0 <= i < tokens.len() ==> encodable(litlen, dist, #[trigger] tokens[i]),
        out.len() > 0 || tokens.len() == 0 || !(tokens[0] is Run),
        bits::holds(
            data,
            p,
            encoding::tokens_bits(litlen, dist, tokens) + encoding::symbol_bits(litlen, 256),
        ),
        expand(out, tokens).len() <= limit,
    ensures
        stream::symbols(litlen, dist, data, p, out, limit) == Ok::<(Seq<u8>, int), InflateError>(
            (
                expand(out, tokens),
                p + (encoding::tokens_bits(litlen, dist, tokens) + encoding::symbol_bits(
                    litlen,
                    256,
                )).len(),
            ),
        ),
    decreases tokens.len(),
{
    let end = encoding::symbol_bits(litlen, 256);
    let all = encoding::tokens_bits(litlen, dist, tokens);
    if tokens.len() == 0 {
        assert(all + end =~= end);
        code::lemma_written_code(litlen, data, p, 256);
    } else {
        let token = tokens[0];
        let rest = tokens.skip(1);
        let first = encoding::token_bits(litlen, dist, token);
        let others = encoding::tokens_bits(litlen, dist, rest);
        assert(encodable(litlen, dist, token));
        assert(all + end =~= first + (others + end));
        bits::lemma_holds_concat(data, p, first, others + end);
        assert forall|i: int| 0 <= i < rest.len() implies encodable(
            litlen,
            dist,
            #[trigger] rest[i],
        ) by {
            assert(rest[i] == tokens[i + 1]);
        }
        match token {
            Token::Literal { byte } => {
                code::lemma_written_code(litlen, data, p, byte as int);
                lemma_expand_grows(out.push(byte), rest);
                lemma_tokens_read(
                    litlen,
                    dist,
                    data,
                    p + first.len(),
                    out.push(byte),
                    rest,
                    limit,
                );
            },
            Token::Run { length } => {
                lemma_run_reads(litlen, dist, data, p, length);
                stream::lemma_copy_match_len(out, 1, length);
                let grown = stream::copy_match(out, 1, length);
                lemma_expand_grows(grown, rest);
                lemma_tokens_read(litlen, dist, data, p + first.len(), grown, rest, limit);
            },
        }
    }
}

/// A run copied from its last zero is that many zeros.
pub proof fn lemma_copy_zeros(out: Seq<u8>, n: nat)
    requires
        out.len() > 0,
        out.last() == 0,
    ensures
        stream::copy_match(out, 1, n) == out + Seq::new(n, |i: int| 0u8),
    decreases n,
{
    if n == 0 {
        assert(out + Seq::new(0, |i: int| 0u8) =~= out);
    } else {
        let m = (n - 1) as nat;
        lemma_copy_zeros(out, m);
        let before = out + Seq::new(m, |i: int| 0u8);
        assert(before[before.len() - 1] == 0);
        assert(before.push(0) =~= out + Seq::new(n, |i: int| 0u8));
    }
}

/// The matches of a run append that many zeros.
pub proof fn lemma_expand_pieces(out: Seq<u8>, n: nat, rest: Seq<Token>)
    requires
        out.len() > 0,
        out.last() == 0,
        n == 0 || n >= 3,
    ensures
        expand(out, encoding::pieces(n) + rest) == expand(
            out + Seq::new(n, |i: int| 0u8),
            rest,
        ),
        forall|i: int|
            0 <= i < encoding::pieces(n).len() ==> (#[trigger] encoding::pieces(n)[i] matches Token::Run {
                length,
            } && 3 <= length <= 258),
    decreases n,
{
    if n == 0 {
        assert(encoding::pieces(n) + rest =~= rest);
        assert(out + Seq::new(0, |i: int| 0u8) =~= out);
    } else {
        let k = encoding::piece(n);
        let m = (n - k) as nat;
        let all = encoding::pieces(n) + rest;
        let grown = out + Seq::new(k, |i: int| 0u8);
        lemma_copy_zeros(out, k);
        assert(all[0] == (Token::Run { length: k }));
        assert(all.skip(1) =~= encoding::pieces(m) + rest);
        lemma_expand_pieces(grown, m, rest);
        assert(grown + Seq::new(m, |i: int| 0u8) =~= out + Seq::new(n, |i: int| 0u8));
        assert forall|i: int| 0 <= i < encoding::pieces(n).len() implies (#[trigger] encoding::pieces(
            n,
        )[i] matches Token::Run { length } && 3 <= length <= 258) by {
            if i > 0 {
                assert(encoding::pieces(n)[i] == encoding::pieces(m)[i - 1]);
            }
        }
    }
}

/// The tokens of a block give the block back.
pub proof fn lemma_expand_tokens(out: Seq<u8>, block: Seq<u8>, i: int)
    requires
        0 <= i <= block.len(),
    ensures
        expand(out, encoding::tokens(block, i)) == out + block.skip(i),
        forall|k: int|
            0 <= k < encoding::tokens(block, i).len() ==> (#[trigger] encoding::tokens(block, i)[k] matches Token::Run {
                length,
            } ==> 3 <= length <= 258),
        encoding::tokens(block, i).len() > 0 ==> encoding::tokens(block, i)[0] is Literal,
    decreases block.len() - i,
{
    let all = encoding::tokens(block, i);
    if i >= block.len() {
        assert(out + block.skip(i) =~= out);
    } else if encoding::run_at(block, i) {
        let n = encoding::zero_run(block, i);
        encoding::lemma_zero_run(block, i);
        let rest = encoding::tokens(block, i + n);
        let m = (n - 1) as nat;
        let matches = encoding::pieces(m);
        let grown = out.push(0u8);
        assert(all[0] == (Token::Literal { byte: 0 }));
        assert(all.skip(1) =~= matches + rest);
        lemma_expand_pieces(grown, m, rest);
        let full = grown + Seq::new(m, |i: int| 0u8);
        lemma_expand_tokens(full, block, i + n);
        assert(full + block.skip(i + n) =~= out + block.skip(i));
        assert forall|k: int| 0 <= k < all.len() implies (#[trigger] all[k] matches Token::Run {
            length,
        } ==> 3 <= length <= 258) by {
            if k > 0 {
                assert(all[k] == (matches + rest)[k - 1]);
                if k - 1 >= matches.len() {
                    assert(all[k] == rest[k - 1 - matches.len()]);
                } else {
                    assert(all[k] == matches[k - 1]);
                }
            }
        }
    } else {
        let rest = encoding::tokens(block, i + 1);
        let grown = out.push(block[i]);
        assert(all.skip(1) =~= rest);
        lemma_expand_tokens(grown, block, i + 1);
        assert(grown + block.skip(i + 1) =~= out + block.skip(i));
        assert forall|k: int| 0 <= k < all.len() implies (#[trigger] all[k] matches Token::Run {
            length,
        } ==> 3 <= length <= 258) by {
            if k > 0 {
                assert(all[k] == rest[k - 1]);
            }
        }
    }
}

// ---------------------------------------------------------------------------------------
// Block headers
// ---------------------------------------------------------------------------------------

/// Lengths with one more symbol of their run-length code carried out.
pub open spec fn grown(lengths: Seq<u8>, symbol: (u8, u8, u8)) -> Seq<u8> {
    if symbol.0 < 16 {
        lengths.push(symbol.0)
    } else {
        let (length, least, extra) = stream::repeat_rule(symbol.0 as int, lengths);
        stream::repeated(lengths, length, least + symbol.2 as nat)
    }
}

/// What run-length coded lengths expand to.
pub open spec fn expand_lengths(lengths: Seq<u8>, symbols: Seq<(u8, u8, u8)>) -> Seq<u8>
    decreases symbols.len(),
{
    if symbols.len() == 0 {
        lengths
    } else {
        expand_lengths(grown(lengths, symbols[0]), symbols.skip(1))
    }
}

/// Whether a symbol of the code length alphabet has the extra bits it should.
pub open spec fn proper(symbol: (u8, u8, u8)) -> bool {
    ||| symbol.0 < 16 && symbol.1 == 0 && symbol.2 == 0
    ||| symbol.0 == 16 && symbol.1 == 2 && symbol.2 < 4
    ||| symbol.0 == 17 && symbol.1 == 3 && symbol.2 < 8
    ||| symbol.0 == 18 && symbol.1 == 7 && symbol.2 < 128
}

/// Whether all symbols are proper.
pub open spec fn all_proper(symbols: Seq<(u8, u8, u8)>) -> bool {
    forall|i: int| 0 <= i < symbols.len() ==> proper(#[trigger] symbols[i])
}

proof fn lemma_expand_lengths_grows(lengths: Seq<u8>, symbols: Seq<(u8, u8, u8)>)
    ensures
        expand_lengths(lengths, symbols).len() >= lengths.len() + symbols.len(),
    decreases symbols.len(),
{
    if symbols.len() > 0 {
        lemma_expand_lengths_grows(grown(lengths, symbols[0]), symbols.skip(1));
    }
}

proof fn lemma_length_bits_concat(clcl: Seq<u8>, a: Seq<(u8, u8, u8)>, b: Seq<(u8, u8, u8)>)
    ensures
        encoding::length_symbol_bits(clcl, a + b) == encoding::length_symbol_bits(clcl, a)
            + encoding::length_symbol_bits(clcl, b),
    decreases b.len(),
{
    let all = encoding::length_symbol_bits(clcl, a);
    if b.len() == 0 {
        assert(a + b =~= a);
        assert(all + encoding::length_symbol_bits(clcl, b) =~= all);
    } else {
        let front = b.drop_last();
        lemma_length_bits_concat(clcl, a, front);
        assert((a + b).drop_last() =~= a + front);
        let (symbol, extra_bits, extra) = b.last();
        let x = encoding::length_symbol_bits(clcl, front);
        let y = encoding::symbol_bits(clcl, symbol as int);
        let z = bits::lsb(extra as nat, extra_bits as nat);
        assert((all + x) + y + z =~= all + (x + y + z));
    }
}

/// Run-length coded lengths are read back.
pub proof fn lemma_lengths_read(
    clcl: Seq<u8>,
    data: Seq<u8>,
    p: int,
    lengths: Seq<u8>,
    symbols: Seq<(u8, u8, u8)>,
    total: nat,
)
    requires
        code::fits(clcl),
        clcl.len() == 19,
        all_proper(symbols),
        forall|i: int|
            0 <= i < symbols.len() ==> code::has_code(clcl, (#[trigger] symbols[i]).0 as int),
        lengths.len() > 0 || symbols.len() == 0 || symbols[0].0 != 16,
        expand_lengths(lengths, symbols).len() == total,
        bits::holds(data, p, encoding::length_symbol_bits(clcl, symbols)),
    ensures
        stream::code_lengths(clcl, data, p, lengths, total) == Ok::<(Seq<u8>, int), InflateError>(
            (
                expand_lengths(lengths, symbols),
                p + encoding::length_symbol_bits(clcl, symbols).len(),
            ),
        ),
    decreases symbols.len(),
{
    if symbols.len() > 0 {
        lemma_expand_lengths_grows(lengths, symbols);
        let first = symbols[0];
        let rest = symbols.skip(1);
        let single = seq![first];
        assert(symbols =~= single + rest);
        lemma_length_bits_concat(clcl, single, rest);
        let word = encoding::symbol_bits(clcl, first.0 as int);
        let extra = bits::lsb(first.2 as nat, first.1 as nat);
        let here = encoding::length_symbol_bits(clcl, single);
        assert(here =~= word + extra) by {
            assert(single.drop_last() =~= Seq::<(u8, u8, u8)>::empty());
            assert(encoding::length_symbol_bits(clcl, single.drop_last()) =~= Seq::<bool>::empty());
        }
        let others = encoding::length_symbol_bits(clcl, rest);
        bits::lemma_holds_concat(data, p, here, others);
        bits::lemma_holds_concat(data, p, word, extra);
        assert(proper(first));
        assert(code::has_code(clcl, first.0 as int));
        code::lemma_written_code(clcl, data, p, first.0 as int);
        let q = p + clcl[first.0 as int];
        bits::lemma_pow2_small();
        bits::lemma_holds_value(data, q, first.2 as nat, first.1 as nat);
        assert forall|i: int| 0 <= i < rest.len() implies proper(#[trigger] rest[i]) && code::has_code(
            clcl,
            rest[i].0 as int,
        ) by {
            assert(rest[i] == symbols[i + 1]);
        }
        lemma_lengths_read(
            clcl,
            data,
            q + first.1,
            grown(lengths, first),
            rest,
            total,
        );
    }
}

/// A run of zero lengths expands to that many zeros.
proof fn lemma_zero_groups(lengths: Seq<u8>, run: nat, rest: Seq<(u8, u8, u8)>)
    ensures
        expand_lengths(lengths, encoding::zero_groups(run) + rest) == expand_lengths(
            stream::repeated(lengths, 0, run),
            rest,
        ),
        all_proper(encoding::zero_groups(run)),
        encoding::zero_groups(run).len() <= run,
        forall|i: int|
            0 <= i < encoding::zero_groups(run).len() ==> (#[trigger] encoding::zero_groups(run)[i]).0
                != 16,
    decreases run,
{
    let groups = encoding::zero_groups(run);
    let all = groups + rest;
    if run >= 3 {
        let take = if run < 138 {
            run
        } else {
            138
        };
        let m = (run - take) as nat;
        let group = groups[0];
        let others = encoding::zero_groups(m);
        assert(all.skip(1) =~= others + rest);
        assert(all[0] == group);
        assert(grown(lengths, group) =~= stream::repeated(lengths, 0, take));
        lemma_zero_groups(stream::repeated(lengths, 0, take), m, rest);
        assert(stream::repeated(stream::repeated(lengths, 0, take), 0, m) =~= stream::repeated(
            lengths,
            0,
            run,
        ));
        assert forall|i: int| 0 <= i < groups.len() implies proper(#[trigger] groups[i])
            && groups[i].0 != 16 by {
            if i > 0 {
                assert(groups[i] == others[i - 1]);
            }
        }
    } else {
        lemma_singles(lengths, 0, run, rest);
    }
}

/// Lengths given one at a time.
proof fn lemma_singles(lengths: Seq<u8>, length: u8, run: nat, rest: Seq<(u8, u8, u8)>)
    requires
        length < 16,
    ensures
        expand_lengths(lengths, Seq::new(run, |i: int| (length, 0u8, 0u8)) + rest)
            == expand_lengths(stream::repeated(lengths, length, run), rest),
    decreases run,
{
    let all = Seq::new(run, |i: int| (length, 0u8, 0u8)) + rest;
    if run == 0 {
        assert(all =~= rest);
        assert(stream::repeated(lengths, length, 0) =~= lengths);
    } else {
        let m = (run - 1) as nat;
        assert(all.skip(1) =~= Seq::new(m, |i: int| (length, 0u8, 0u8)) + rest);
        assert(all[0] == (length, 0u8, 0u8));
        lemma_singles(lengths.push(length), length, m, rest);
        assert(stream::repeated(lengths.push(length), length, m) =~= stream::repeated(
            lengths,
            length,
            run,
        ));
    }
}

/// Repeats of the last length expand to that many more of it.
proof fn lemma_repeat_groups(lengths: Seq<u8>, length: u8, run: nat, rest: Seq<(u8, u8, u8)>)
    requires
        lengths.len() > 0,
        lengths.last() == length,
        length < 16,
    ensures
        expand_lengths(lengths, encoding::repeat_groups(length, run) + rest) == expand_lengths(
            stream::repeated(lengths, length, run),
            rest,
        ),
        all_proper(encoding::repeat_groups(length, run)),
        encoding::repeat_groups(length, run).len() <= run,
    decreases run,
{
    let groups = encoding::repeat_groups(length, run);
    let all = groups + rest;
    if run >= 3 {
        let take = if run < 6 {
            run
        } else {
            6
        };
        let m = (run - take) as nat;
        let group = groups[0];
        let others = encoding::repeat_groups(length, m);
        assert(all.skip(1) =~= others + rest);
        assert(all[0] == group);
        let next = stream::repeated(lengths, length, take);
        assert(grown(lengths, group) =~= next);
        assert(next.last() == length);
        lemma_repeat_groups(next, length, m, rest);
        assert(stream::repeated(next, length, m) =~= stream::repeated(lengths, length, run));
        assert forall|i: int| 0 <= i < groups.len() implies proper(#[trigger] groups[i]) by {
            if i > 0 {
                assert(groups[i] == others[i - 1]);
            }
        }
    } else {
        lemma_singles(lengths, length, run, rest);
    }
}

/// The run-length code of lengths gives the lengths back.
pub proof fn lemma_run_lengths(lengths: Seq<u8>, i: int)
    requires
        0 <= i <= lengths.len(),
        forall|k: int| 0 <= k < lengths.len() ==> #[trigger] lengths[k] < 16,
    ensures
        expand_lengths(lengths.take(i), encoding::run_lengths(lengths, i)) == lengths,
        all_proper(encoding::run_lengths(lengths, i)),
        encoding::run_lengths(lengths, i).len() <= lengths.len() - i,
        encoding::run_lengths(lengths, i).len() > 0 ==> encoding::run_lengths(lengths, i)[0].0 != 16,
    decreases lengths.len() - i,
{
    let symbols = encoding::run_lengths(lengths, i);
    if i < lengths.len() {
        let length = lengths[i];
        let more = encoding::same_run(lengths, i + 1, length);
        encoding::lemma_same_run(lengths, i + 1, length);
        let run = more + 1;
        let rest = encoding::run_lengths(lengths, i + run);
        let before = lengths.take(i);
        let after = lengths.take(i + run);
        lemma_run_lengths(lengths, i + run);
        if length == 0 {
            lemma_zero_groups(before, run, rest);
            assert(stream::repeated(before, 0, run) =~= after);
            let groups = encoding::zero_groups(run);
            assert forall|k: int| 0 <= k < symbols.len() implies proper(#[trigger] symbols[k]) by {
                if k < groups.len() {
                    assert(symbols[k] == groups[k]);
                } else {
                    assert(symbols[k] == rest[k - groups.len()]);
                }
            }
            assert(groups.len() > 0);
            assert(symbols[0] == groups[0]);
        } else {
            let groups = encoding::repeat_groups(length, more);
            let with = before.push(length);
            lemma_repeat_groups(with, length, more, rest);
            assert(stream::repeated(with, length, more) =~= after);
            assert(symbols.skip(1) =~= groups + rest);
            assert(symbols[0] == (length, 0u8, 0u8));
            assert forall|k: int| 0 <= k < symbols.len() implies proper(#[trigger] symbols[k]) by {
                if k > 0 {
                    assert(symbols[k] == (groups + rest)[k - 1]);
                    if k - 1 < groups.len() {
                        assert(symbols[k] == groups[k - 1]);
                    } else {
                        assert(symbols[k] == rest[k - 1 - groups.len()]);
                    }
                }
            }
        }
    } else {
        assert(lengths.take(i) =~= lengths);
    }
}

/// Every symbol that occurs is counted.
pub proof fn lemma_clcl_counts(symbols: Seq<(u8, u8, u8)>)
    requires
        symbols.len() <= 1000,
        forall|i: int| 0 <= i < symbols.len() ==> (#[trigger] symbols[i]).0 < 19,
    ensures
        encoding::clcl_counts(symbols).len() == 19,
        forall|s: int|
            0 <= s < 19 ==> #[trigger] encoding::clcl_counts(symbols)[s] <= symbols.len(),
        forall|i: int|
            0 <= i < symbols.len() ==> encoding::clcl_counts(symbols)[(#[trigger] symbols[i]).0 as int]
                > 0,
    decreases symbols.len(),
{
    if symbols.len() > 0 {
        let front = symbols.drop_last();
        assert forall|i: int| 0 <= i < front.len() implies (#[trigger] front[i]).0 < 19 by {
            assert(front[i] == symbols[i]);
        }
        lemma_clcl_counts(front);
        let before = encoding::clcl_counts(front);
        let s = symbols.last().0 as int;
        assert(before[s] <= front.len());
        assert forall|i: int| 0 <= i < symbols.len() implies encoding::clcl_counts(
            symbols,
        )[(#[trigger] symbols[i]).0 as int] > 0 by {
            if i < front.len() {
                assert(front[i] == symbols[i]);
            }
        }
        assert forall|t: int| 0 <= t < 19 implies #[trigger] encoding::clcl_counts(symbols)[t]
            <= symbols.len() by {
            assert(before[t] <= front.len());
        }
    }
}

/// The first `n` code length code lengths are read back to their places.
pub proof fn lemma_clcl_read(clcl: Seq<u8>, data: Seq<u8>, p: int, n: nat)
    requires
        clcl.len() == 19,
        forall|s: int| 0 <= s < 19 ==> #[trigger] clcl[s] < 8,
        n <= 19,
        bits::holds(data, p, encoding::clcl_bits(clcl, n)),
    ensures
        encoding::clcl_bits(clcl, n).len() == 3 * n,
        stream::clcl_lengths(data, p, n).len() == 19,
        forall|j: int|
            0 <= j < 19 ==> stream::clcl_lengths(data, p, n)[#[trigger] tables::CLCL_ORDER@[j] as int]
                == if j < n {
                clcl[tables::CLCL_ORDER@[j] as int]
            } else {
                0
            },
    decreases n,
{
    tables::lemma_clcl_order();
    if n > 0 {
        let k = (n - 1) as nat;
        let front = encoding::clcl_bits(clcl, k);
        let symbol = tables::CLCL_ORDER@[k as int] as int;
        let here = bits::lsb(clcl[symbol] as nat, 3);
        bits::lemma_holds_concat(data, p, front, here);
        lemma_clcl_read(clcl, data, p, k);
        bits::lemma_pow2_small();
        bits::lemma_holds_value(data, p + 3 * k, clcl[symbol] as nat, 3);
    }
}

pub proof fn lemma_clcl_bits_len(clcl: Seq<u8>, n: nat)
    ensures
        encoding::clcl_bits(clcl, n).len() == 3 * n,
    decreases n,
{
    if n > 0 {
        lemma_clcl_bits_len(clcl, (n - 1) as nat);
    }
}

/// Lengths that are not transmitted are zero.
pub proof fn lemma_clcl_count(clcl: Seq<u8>, n: nat)
    requires
        4 <= n <= 19,
        forall|j: int|
            n <= j < 19 ==> clcl[#[trigger] tables::CLCL_ORDER@[j] as int] == 0,
    ensures
        4 <= encoding::clcl_count(clcl, n) <= n,
        forall|j: int|
            encoding::clcl_count(clcl, n) <= j < 19 ==> clcl[#[trigger] tables::CLCL_ORDER@[j] as int]
                == 0,
    decreases n,
{
    if !(n <= 4 || clcl[tables::CLCL_ORDER@[n - 1] as int] != 0) {
        lemma_clcl_count(clcl, (n - 1) as nat);
    }
}

/// Behind the last used symbol no symbol has a codeword.
pub proof fn lemma_last_used(lengths: Seq<u8>, i: nat)
    requires
        i <= lengths.len(),
    ensures
        encoding::last_used(lengths, i) <= i,
        i > 0 ==> encoding::last_used(lengths, i) < i,
        forall|j: int|
            encoding::last_used(lengths, i) < j < i ==> #[trigger] lengths[j] == 0,
    decreases i,
{
    if i > 0 && lengths[i - 1] == 0 {
        lemma_last_used(lengths, (i - 1) as nat);
    }
}

/// Codes that a block can be written with: both complete, and with a codeword for every
/// literal/length symbol and for distance one.
pub open spec fn writable(litlen: Seq<u8>, dist: Seq<u8>) -> bool {
    &&& litlen.len() == 286
    &&& dist.len() == 30
    &&& code::complete(litlen)
    &&& code::complete(dist)
    &&& forall|s: int| 0 <= s < 286 ==> #[trigger] litlen[s] > 0
    &&& dist[0] > 0
}

/// The distance code as a header describes it.
pub open spec fn dist_read(dist: Seq<u8>) -> Seq<u8> {
    let n = encoding::hdist(dist);
    dist.take(n as int) + Seq::new((32 - n) as nat, |i: int| 0u8)
}

/// What goes into a block header.
pub proof fn lemma_header_parts(litlen: Seq<u8>, dist: Seq<u8>)
    requires
        writable(litlen, dist),
    ensures
        encoding::hlit(litlen) == 286,
        1 <= encoding::hdist(dist) <= 30,
        ({
            let all = encoding::combined(litlen, dist);
            let symbols = encoding::run_lengths(all, 0);
            let clcl = encoding::header_clcl(litlen, dist);
            &&& all.len() == 286 + encoding::hdist(dist)
            &&& forall|k: int| 0 <= k < all.len() ==> #[trigger] all[k] < 16
            &&& expand_lengths(Seq::empty(), symbols) == all
            &&& all_proper(symbols)
            &&& symbols.len() <= all.len()
            &&& symbols.len() > 0 ==> symbols[0].0 != 16
            &&& clcl.len() == 19
            &&& code::complete(clcl)
            &&& forall|t: int| 0 <= t < 19 ==> #[trigger] clcl[t] <= 7
            &&& forall|i: int|
                0 <= i < symbols.len() ==> code::has_code(clcl, (#[trigger] symbols[i]).0 as int)
            &&& 4 <= encoding::clcl_count(clcl, 19) <= 19
            &&& tree::ranked(encoding::clcl_counts(symbols), 19).len() <= 19
            &&& forall|j: int|
                encoding::clcl_count(clcl, 19) <= j < 19
                    ==> clcl[#[trigger] tables::CLCL_ORDER@[j] as int] == 0
        }),
{
    let all = encoding::combined(litlen, dist);
    lemma_last_used(litlen, 286);
    lemma_last_used(dist, 30);
    assert(litlen[285] > 0);
    assert(encoding::last_used(litlen, 286) == 285);
    assert forall|k: int| 0 <= k < all.len() implies #[trigger] all[k] < 16 by {
        if k < 286 {
            assert(litlen[k] <= 15);
        } else {
            assert(dist[k - 286] <= 15);
        }
    }
    lemma_run_lengths(all, 0);
    assert(all.take(0) =~= Seq::<u8>::empty());
    let symbols = encoding::run_lengths(all, 0);
    assert forall|i: int| 0 <= i < symbols.len() implies (#[trigger] symbols[i]).0 < 19 by {
        assert(proper(symbols[i]));
    }
    lemma_clcl_counts(symbols);
    let counts = encoding::clcl_counts(symbols);
    let clcl = encoding::header_clcl(litlen, dist);
    tree::lemma_ranked(counts, 19);
    bits::lemma_pow2_small();
    tree::law_code_lengths(counts, 7);
    assert forall|i: int| 0 <= i < symbols.len() implies code::has_code(
        clcl,
        (#[trigger] symbols[i]).0 as int,
    ) by {
        let t = symbols[i].0 as int;
        assert(counts[t] > 0);
        assert(clcl[t] > 0);
    }
    lemma_clcl_count(clcl, 19);
}

/// The two codes are read back from the header.
proof fn lemma_header_read(litlen: Seq<u8>, dist: Seq<u8>, data: Seq<u8>, p: int, last: bool)
    requires
        writable(litlen, dist),
        bits::holds(data, p, encoding::header_bits(litlen, dist, last)),
    ensures
        bits::bit(data, p) == (if last {
            1nat
        } else {
            0
        }),
        bits::value(data, p + 1, 2) == 2,
        stream::dynamic_codes(data, p + 3) == Ok::<(Seq<u8>, Seq<u8>, int), InflateError>(
            (litlen, dist_read(dist), p + encoding::header_bits(litlen, dist, last).len()),
        ),
{
    lemma_header_parts(litlen, dist);
    let all = encoding::combined(litlen, dist);
    let symbols = encoding::run_lengths(all, 0);
    let clcl = encoding::header_clcl(litlen, dist);
    let hclen = encoding::clcl_count(clcl, 19);
    let hdist = encoding::hdist(dist);
    let b0 = seq![last];
    let b1 = bits::lsb(2, 2);
    let b2 = bits::lsb(29, 5);
    let b3 = bits::lsb((hdist - 1) as nat, 5);
    let b4 = bits::lsb((hclen - 4) as nat, 4);
    let b5 = encoding::clcl_bits(clcl, hclen);
    let b6 = encoding::length_symbol_bits(clcl, symbols);
    assert(encoding::header_bits(litlen, dist, last) == b0 + b1 + b2 + b3 + b4 + b5 + b6);
    bits::lemma_holds_concat(data, p, b0 + b1 + b2 + b3 + b4 + b5, b6);
    bits::lemma_holds_concat(data, p, b0 + b1 + b2 + b3 + b4, b5);
    bits::lemma_holds_concat(data, p, b0 + b1 + b2 + b3, b4);
    bits::lemma_holds_concat(data, p, b0 + b1 + b2, b3);
    bits::lemma_holds_concat(data, p, b0 + b1, b2);
    bits::lemma_holds_concat(data, p, b0, b1);
    assert(b0[0] == (bits::bit(data, p + 0) == 1));
    bits::lemma_bit_bound(data, p);
    bits::lemma_pow2_small();
    bits::lemma_holds_value(data, p + 1, 2, 2);
    bits::lemma_holds_value(data, p + 3, 29, 5);
    bits::lemma_holds_value(data, p + 8, (hdist - 1) as nat, 5);
    bits::lemma_holds_value(data, p + 13, (hclen - 4) as nat, 4);
    lemma_clcl_read(clcl, data, p + 17, hclen);
    let got = stream::clcl_lengths(data, p + 17, hclen);
    assert(got =~= clcl) by {
        assert forall|t: int| 0 <= t < 19 implies got[t] == clcl[t] by {
            tables::lemma_clcl_place(t);
            let j = tables::clcl_place(t);
            assert(tables::CLCL_ORDER@[j] == t);
        }
    }
    lemma_lengths_read(clcl, data, p + 17 + 3 * hclen, Seq::empty(), symbols, all.len());
    let n = all.len();
    assert(all.take(286) =~= litlen);
    assert(all.skip(286) =~= dist.take(hdist as int));
    let read = dist_read(dist);
    lemma_dist_read(dist);
    assert(all.skip(286) + Seq::new((32 - (n - 286)) as nat, |i: int| 0u8) =~= read);
}

/// The distance code read back is the one written, with two unused symbols more.
pub proof fn lemma_dist_read(dist: Seq<u8>)
    requires
        dist.len() == 30,
        code::complete(dist),
        dist[0] > 0,
    ensures
        code::complete(dist_read(dist)),
        code::has_code(dist_read(dist), 0),
        dist_read(dist)[0] == dist[0],
        code::codeword(dist_read(dist), 0) == code::codeword(dist, 0),
{
    let n = encoding::hdist(dist) as int;
    lemma_last_used(dist, 30);
    let read = dist_read(dist);
    assert(read.take(n) =~= dist.take(n));
    code::lemma_tail_unused(dist, n);
    code::lemma_tail_unused(read, n);
}

/// Bits of tokens depend on the codewords alone.
proof fn lemma_tokens_bits_same(litlen: Seq<u8>, dist: Seq<u8>, tokens: Seq<Token>)
    requires
        writable(litlen, dist),
    ensures
        encoding::tokens_bits(litlen, dist_read(dist), tokens) == encoding::tokens_bits(
            litlen,
            dist,
            tokens,
        ),
    decreases tokens.len(),
{
    lemma_dist_read(dist);
    if tokens.len() > 0 {
        lemma_tokens_bits_same(litlen, dist, tokens.skip(1));
    }
}

/// A coded block is read back.
pub proof fn lemma_coded_read(
    litlen: Seq<u8>,
    dist: Seq<u8>,
    data: Seq<u8>,
    p: int,
    out: Seq<u8>,
    block: Seq<u8>,
    last: bool,
    limit: nat,
)
    requires
        writable(litlen, dist),
        bits::holds(data, p, encoding::coded_bits(litlen, dist, block, last)),
        out.len() + block.len() <= limit,
    ensures
        bits::bit(data, p) == (if last {
            1nat
        } else {
            0
        }),
        stream::block(data, p + 1, out, limit) == Ok::<(Seq<u8>, int), InflateError>(
            (out + block, p + encoding::coded_bits(litlen, dist, block, last).len()),
        ),
{
    let header = encoding::header_bits(litlen, dist, last);
    let tokens = encoding::tokens(block, 0);
    let body = encoding::tokens_bits(litlen, dist, tokens);
    let end = encoding::symbol_bits(litlen, 256);
    assert(header + body + end =~= header + (body + end));
    bits::lemma_holds_concat(data, p, header, body + end);
    lemma_header_read(litlen, dist, data, p, last);
    lemma_tokens_bits_same(litlen, dist, tokens);
    lemma_dist_read(dist);
    lemma_expand_tokens(out, block, 0);
    assert(block.skip(0) =~= block);
    let read = dist_read(dist);
    assert forall|i: int| 0 <= i < tokens.len() implies encodable(
        litlen,
        read,
        #[trigger] tokens[i],
    ) by {
        match tokens[i] {
            Token::Literal { byte } => {
                assert(litlen[byte as int] > 0);
            },
            Token::Run { length } => {
                tables::lemma_len_index(length as int);
                assert(litlen[257 + tables::len_index(length as int)] > 0);
            },
        }
    }
    assert(litlen[256] > 0);
    lemma_tokens_read(litlen, read, data, p + header.len(), out, tokens, limit);
    reveal(stream::block);
}

// ---------------------------------------------------------------------------------------
// Stored blocks
// ---------------------------------------------------------------------------------------

/// Bytes that are held as bits stand in the data.
pub proof fn lemma_bytes_read(data: Seq<u8>, start: int, raw: Seq<u8>)
    requires
        0 <= start,
        bits::holds(data, 8 * start, bits::bits_of(raw)),
    ensures
        start + raw.len() <= data.len(),
        data.subrange(start, start + raw.len()) == raw,
{
    let e = bits::bits_of(raw);
    assert(e.len() == 8 * raw.len());
    let part = data.subrange(start, start + raw.len());
    assert forall|i: int| 0 <= i < raw.len() implies part[i] == raw[i] by {
        bits::lemma_value_byte(raw, i);
        bits::lemma_value_byte(data, start + i);
        assert forall|k: int| 0 <= k < 8 implies bits::bit(data, 8 * (start + i) + k)
            == #[trigger] bits::bit(raw, 8 * i + k) by {
            let at = 8 * i + k;
            assert(e[at] == (bits::bit(data, 8 * start + at) == 1));
            assert(8 * start + at == 8 * (start + i) + k);
            bits::lemma_bit_bound(data, 8 * (start + i) + k);
            bits::lemma_bit_bound(raw, at);
        }
        lemma_same_value(data, 8 * (start + i), raw, 8 * i, 8);
    }
    assert(part =~= raw);
}

/// Equal bits are equal numbers.
proof fn lemma_same_value(a: Seq<u8>, p: int, b: Seq<u8>, q: int, n: nat)
    requires
        forall|k: int| 0 <= k < n ==> bits::bit(a, p + k) == #[trigger] bits::bit(b, q + k),
    ensures
        bits::value(a, p, n) == bits::value(b, q, n),
    decreases n,
{
    if n > 0 {
        let m = (n - 1) as nat;
        lemma_same_value(a, p, b, q, m);
        assert(bits::bit(a, p + m) == bits::bit(b, q + m));
    }
}

/// Two bytes as a number, least significant byte first.
pub proof fn lemma_value_16(data: Seq<u8>, start: int)
    requires
        0 <= start,
        start + 2 <= data.len(),
    ensures
        bits::value(data, 8 * start, 16) == data[start] + 256 * data[start + 1],
{
    bits::lemma_pow2_small();
    bits::lemma_value_split(data, 8 * start, 8, 8);
    bits::lemma_value_byte(data, start);
    bits::lemma_value_byte(data, start + 1);
    assert(8 * start + 8 == 8 * (start + 1));
}

/// The fields of a stored block.
proof fn lemma_stored_fields(data: Seq<u8>, p: int, raw: Seq<u8>, last: bool)
    requires
        0 <= p,
        raw.len() <= 65535,
        bits::holds(data, p, encoding::stored_chunk(p, raw, last)),
    ensures
        ({
            let start = stream::byte_at(p + 3);
            &&& bits::bit(data, p) == (if last {
                1nat
            } else {
                0
            })
            &&& bits::value(data, p + 1, 2) == 0
            &&& bits::value(data, 8 * start, 16) == raw.len()
            &&& bits::value(data, 8 * (start + 2), 16) == 65535 - raw.len()
            &&& bits::holds(data, 8 * (start + 4), bits::bits_of(raw))
            &&& p + encoding::stored_chunk(p, raw, last).len() == 8 * (start + 4 + raw.len())
        }),
{
    let pad = bits::padding(p + 3) as nat;
    let b0 = seq![last];
    let b1 = bits::lsb(0, 2);
    let b2 = encoding::zero_bits(pad);
    let b3 = bits::lsb(raw.len(), 16);
    let b4 = bits::lsb((65535 - raw.len()) as nat, 16);
    let b5 = bits::bits_of(raw);
    assert(encoding::stored_chunk(p, raw, last) == b0 + b1 + b2 + b3 + b4 + b5);
    let start = (p + 3 + pad) / 8;
    assert(8 * start == p + 3 + pad);
    assert(start == stream::byte_at(p + 3));
    bits::lemma_holds_concat(data, p, b0 + b1 + b2 + b3 + b4, b5);
    bits::lemma_holds_concat(data, p, b0 + b1 + b2 + b3, b4);
    bits::lemma_holds_concat(data, p, b0 + b1 + b2, b3);
    bits::lemma_holds_concat(data, p, b0 + b1, b2);
    bits::lemma_holds_concat(data, p, b0, b1);
    assert(b0[0] == (bits::bit(data, p + 0) == 1));
    bits::lemma_bit_bound(data, p);
    bits::lemma_pow2_small();
    bits::lemma_holds_value(data, p + 1, 0, 2);
    bits::lemma_holds_value(data, 8 * start, raw.len(), 16);
    bits::lemma_holds_value(data, 8 * start + 16, (65535 - raw.len()) as nat, 16);
    assert(b5.len() == 8 * raw.len());
}

/// A stored block is read back.
pub proof fn lemma_stored_chunk_read(
    data: Seq<u8>,
    p: int,
    out: Seq<u8>,
    raw: Seq<u8>,
    last: bool,
    limit: nat,
)
    requires
        0 <= p,
        raw.len() <= 65535,
        bits::holds(data, p, encoding::stored_chunk(p, raw, last)),
        out.len() + raw.len() <= limit,
    ensures
        bits::bit(data, p) == (if last {
            1nat
        } else {
            0
        }),
        stream::block(data, p + 1, out, limit) == Ok::<(Seq<u8>, int), InflateError>(
            (out + raw, p + encoding::stored_chunk(p, raw, last).len()),
        ),
        (p + encoding::stored_chunk(p, raw, last).len()) % 8 == 0,
{
    let start = stream::byte_at(p + 3);
    lemma_stored_fields(data, p, raw, last);
    lemma_bytes_read(data, start + 4, raw);
    lemma_value_16(data, start);
    lemma_value_16(data, start + 2);
    reveal(stream::block);
    assert(out + data.subrange(start + 4, start + 4 + raw.len()) =~= out + raw);
}

/// Stored blocks are read back.
proof fn lemma_stored_read(
    data: Seq<u8>,
    p: int,
    out: Seq<u8>,
    raw: Seq<u8>,
    last: bool,
    limit: nat,
)
    requires
        0 <= p,
        bits::holds(data, p, encoding::stored_bits(p, raw, last)),
        out.len() + raw.len() <= limit,
    ensures
        stream::blocks(data, p, out, limit) == behind(
            data,
            p + encoding::stored_bits(p, raw, last).len(),
            out + raw,
            last,
            limit,
        ),
    decreases raw.len(),
{
    if raw.len() <= 65535 {
        lemma_stored_chunk_read(data, p, out, raw, last, limit);
    } else {
        let head = raw.take(65535);
        let tail = raw.skip(65535);
        let first = encoding::stored_chunk(p, head, false);
        let q = p + first.len();
        bits::lemma_holds_concat(data, p, first, encoding::stored_bits(q, tail, last));
        lemma_stored_chunk_read(data, p, out, head, false, limit);
        lemma_stored_read(data, q, out + head, tail, last, limit);
        assert(out + head + tail =~= out + raw);
    }
}

/// What reading comes to behind a block that was just read.
pub open spec fn behind(data: Seq<u8>, p: int, out: Seq<u8>, last: bool, limit: nat) -> Result<
    (Seq<u8>, int),
    InflateError,
> {
    if last {
        Ok((out, p))
    } else {
        stream::blocks(data, p, out, limit)
    }
}

// ---------------------------------------------------------------------------------------
// Whole streams
// ---------------------------------------------------------------------------------------

/// Whether a compressor state is one that occurs.
pub open spec fn state_ok(state: encoding::State) -> bool {
    &&& state.litlen.len() == 286
    &&& state.dist.len() == 30
    &&& forall|s: int| 0 <= s < 286 ==> #[trigger] state.litlen[s] <= 262146 + state.since
    &&& forall|s: int| 1 <= s < 30 ==> #[trigger] state.dist[s] == 0
    &&& state.dist[0] <= 262144
    &&& state.since <= 8
}

pub proof fn lemma_tokens_len(block: Seq<u8>, i: int)
    requires
        0 <= i <= block.len(),
    ensures
        encoding::tokens(block, i).len() <= block.len() - i,
    decreases block.len() - i,
{
    if i < block.len() {
        if encoding::run_at(block, i) {
            encoding::lemma_zero_run(block, i);
            let n = encoding::zero_run(block, i);
            lemma_pieces_len((n - 1) as nat);
            lemma_tokens_len(block, i + n);
        } else {
            lemma_tokens_len(block, i + 1);
        }
    }
}

proof fn lemma_pieces_len(n: nat)
    ensures
        encoding::pieces(n).len() <= n,
    decreases n,
{
    if n > 0 {
        lemma_pieces_len((n - encoding::piece(n)) as nat);
    }
}

/// Counting adds at most one per token.
pub proof fn lemma_litlen_counts(tokens: Seq<Token>, counts: Seq<u32>, most: int)
    requires
        counts.len() == 286,
        forall|s: int| 0 <= s < 286 ==> #[trigger] counts[s] <= most,
        most + tokens.len() <= 0x7fff_ffff,
        forall|i: int|
            0 <= i < tokens.len() ==> (#[trigger] tokens[i] matches Token::Run { length } ==> 3
                <= length <= 258),
    ensures
        encoding::litlen_counts(tokens, counts).len() == 286,
        forall|s: int|
            0 <= s < 286 ==> #[trigger] encoding::litlen_counts(tokens, counts)[s] <= most
                + tokens.len(),
        encoding::litlen_counts(tokens, counts)[256] == counts[256],
    decreases tokens.len(),
{
    if tokens.len() > 0 {
        let t = encoding::symbol_of(tokens[0]);
        if let Token::Run { length } = tokens[0] {
            tables::lemma_len_index(length as int);
        }
        let next = counts.update(t, (counts[t] + 1) as u32);
        let rest = tokens.skip(1);
        assert forall|s: int| 0 <= s < 286 implies #[trigger] next[s] <= most + 1 by {
            assert(counts[s] <= most);
        }
        assert forall|i: int| 0 <= i < rest.len() implies (#[trigger] rest[i] matches Token::Run {
            length,
        } ==> 3 <= length <= 258) by {
            assert(rest[i] == tokens[i + 1]);
        }
        lemma_litlen_counts(rest, next, most + 1);
    }
}

pub proof fn lemma_run_count(tokens: Seq<Token>)
    ensures
        encoding::run_count(tokens) <= tokens.len(),
    decreases tokens.len(),
{
    if tokens.len() > 0 {
        lemma_run_count(tokens.skip(1));
    }
}

/// The counts of a block.
pub proof fn lemma_block_counts(block: Seq<u8>)
    requires
        block.len() <= encoding::block_bytes(),
    ensures
        encoding::block_litlen(block).len() == 286,
        forall|s: int| 0 <= s < 286 ==> #[trigger] encoding::block_litlen(block)[s] <= 262145,
        encoding::block_dist(block).len() == 30,
        encoding::block_dist(block)[0] == encoding::run_count(encoding::tokens(block, 0)),
        encoding::block_dist(block)[0] <= 262144,
        forall|s: int| 1 <= s < 30 ==> #[trigger] encoding::block_dist(block)[s] == 0,
{
    let tokens = encoding::tokens(block, 0);
    lemma_tokens_len(block, 0);
    lemma_expand_tokens(Seq::empty(), block, 0);
    let none = Seq::new(286, |s: int| 0u32);
    lemma_litlen_counts(tokens, none, 0);
    lemma_run_count(tokens);
    let counts = encoding::litlen_counts(tokens, none);
    assert forall|s: int| 0 <= s < 286 implies #[trigger] encoding::block_litlen(block)[s] <= 262145 by {
        assert(counts[s] <= tokens.len());
    }
}

/// The codes of a block can write it.
pub proof fn lemma_block_codes(state: encoding::State, block: Seq<u8>)
    requires
        state_ok(state),
        block.len() <= encoding::block_bytes(),
    ensures
        writable(encoding::litlen_code(state, block), encoding::dist_code(state, block)),
        encoding::litlen_freq(state, block).len() == 286,
        encoding::dist_freq(state, block).len() == 30,
        tree::ranked(encoding::litlen_freq(state, block), 286).len() <= pow2(12),
        tree::ranked(encoding::dist_freq(state, block), 30).len() <= pow2(12),
        forall|s: int|
            0 <= s < 286 ==> 1 <= #[trigger] encoding::litlen_freq(state, block)[s] <= 262147
                + state.since,
        forall|s: int| 0 <= s < 286 ==> #[trigger] encoding::litlen_code(state, block)[s] <= 12,
        forall|s: int| 0 <= s < 30 ==> #[trigger] encoding::dist_code(state, block)[s] <= 12,
        state_ok(encoding::block_state(state, block)),
{
    reveal(encoding::block_state);
    lemma_block_counts(block);
    bits::lemma_pow2_small();
    let litlen = encoding::litlen_freq(state, block);
    let dist = encoding::dist_freq(state, block);
    assert forall|s: int| 0 <= s < 286 implies 1 <= #[trigger] litlen[s] <= 262147 + state.since by {
        if encoding::exact(state) {
            assert(encoding::block_litlen(block)[s] <= 262145);
        } else {
            assert(state.litlen[s] <= 262146 + state.since);
        }
    }
    tree::lemma_ranked(litlen, 286);
    tree::lemma_ranked(dist, 30);
    tree::law_code_lengths(litlen, 12);
    tree::law_code_lengths(dist, 12);
    let ll = encoding::litlen_code(state, block);
    let dl = encoding::dist_code(state, block);
    assert forall|s: int| 0 <= s < 286 implies #[trigger] ll[s] > 0 by {
        assert(litlen[s] >= 1);
    }
    // All matches are at distance one, so symbol zero is the used one or the padding.
    assert(dl[0] > 0) by {
        if dist[0] > 0 {
            assert(dl[0] > 0);
        } else {
            let order = tree::ranked(dist, 30);
            if order.len() > 0 {
                let t = order[0];
                assert(dist[t] > 0);
                assert(encoding::exact(state) ==> dist[t] == encoding::block_dist(block)[t]);
            }
        }
    }
}

/// A token takes at most a length code, its extra bits and the distance code.
proof fn lemma_tokens_bits_len(litlen: Seq<u8>, dist: Seq<u8>, tokens: Seq<Token>)
    requires
        litlen.len() == 286,
        dist.len() == 30,
        forall|s: int| 0 <= s < 286 ==> #[trigger] litlen[s] <= 12,
        dist[0] <= 12,
        forall|i: int|
            0 <= i < tokens.len() ==> (#[trigger] tokens[i] matches Token::Run { length } ==> 3
                <= length <= 258),
    ensures
        encoding::tokens_bits(litlen, dist, tokens).len() <= 29 * tokens.len(),
    decreases tokens.len(),
{
    if tokens.len() > 0 {
        let rest = tokens.skip(1);
        assert forall|i: int| 0 <= i < rest.len() implies (#[trigger] rest[i] matches Token::Run {
            length,
        } ==> 3 <= length <= 258) by {
            assert(rest[i] == tokens[i + 1]);
        }
        lemma_tokens_bits_len(litlen, dist, rest);
        match tokens[0] {
            Token::Literal { byte } => {
                assert(litlen[byte as int] <= 12);
            },
            Token::Run { length } => {
                tables::lemma_len_index(length as int);
                tables::lemma_len_range();
                assert(litlen[257 + tables::len_index(length as int)] <= 12);
            },
        }
    }
}

/// The symbols of the header take at most fourteen bits each.
proof fn lemma_length_bits_len(clcl: Seq<u8>, symbols: Seq<(u8, u8, u8)>)
    requires
        clcl.len() == 19,
        all_proper(symbols),
        forall|t: int| 0 <= t < 19 ==> #[trigger] clcl[t] <= 7,
    ensures
        encoding::length_symbol_bits(clcl, symbols).len() <= 14 * symbols.len(),
    decreases symbols.len(),
{
    if symbols.len() > 0 {
        let front = symbols.drop_last();
        assert forall|i: int| 0 <= i < front.len() implies proper(#[trigger] front[i]) by {
            assert(front[i] == symbols[i]);
        }
        lemma_length_bits_len(clcl, front);
        assert(proper(symbols[symbols.len() - 1]));
    }
}

/// A coded block is not long beyond its input.
pub proof fn lemma_coded_len(litlen: Seq<u8>, dist: Seq<u8>, block: Seq<u8>, last: bool)
    requires
        writable(litlen, dist),
        forall|s: int| 0 <= s < 286 ==> #[trigger] litlen[s] <= 12,
        forall|s: int| 0 <= s < 30 ==> #[trigger] dist[s] <= 12,
    ensures
        encoding::coded_bits(litlen, dist, block, last).len() <= 5000 + 29 * block.len(),
{
    lemma_header_parts(litlen, dist);
    let all = encoding::combined(litlen, dist);
    let symbols = encoding::run_lengths(all, 0);
    let clcl = encoding::header_clcl(litlen, dist);
    lemma_clcl_bits_len(clcl, encoding::clcl_count(clcl, 19));
    lemma_length_bits_len(clcl, symbols);
    lemma_tokens_len(block, 0);
    lemma_expand_tokens(Seq::empty(), block, 0);
    assert(dist[0] <= 12);
    lemma_tokens_bits_len(litlen, dist, encoding::tokens(block, 0));
    assert(litlen[256] <= 12);
}

/// A coded block is not long beyond its symbols.
pub proof fn lemma_coded_most(litlen: Seq<u8>, dist: Seq<u8>, block: Seq<u8>, last: bool)
    requires
        writable(litlen, dist),
        forall|s: int| 0 <= s < 286 ==> #[trigger] litlen[s] <= 12,
        forall|s: int| 0 <= s < 30 ==> #[trigger] dist[s] <= 12,
    ensures
        encoding::coded_bits(litlen, dist, block, last).len() <= 5000 + 29 * encoding::tokens(
            block,
            0,
        ).len(),
{
    lemma_header_parts(litlen, dist);
    let all = encoding::combined(litlen, dist);
    let symbols = encoding::run_lengths(all, 0);
    let clcl = encoding::header_clcl(litlen, dist);
    lemma_clcl_bits_len(clcl, encoding::clcl_count(clcl, 19));
    lemma_length_bits_len(clcl, symbols);
    lemma_expand_tokens(Seq::empty(), block, 0);
    assert(dist[0] <= 12);
    lemma_tokens_bits_len(litlen, dist, encoding::tokens(block, 0));
    assert(litlen[256] <= 12);
}

/// A block is read back.
proof fn lemma_block_out_read(
    state: encoding::State,
    block: Seq<u8>,
    last: bool,
    data: Seq<u8>,
    p: int,
    out: Seq<u8>,
    limit: nat,
)
    requires
        state_ok(state),
        block.len() <= encoding::block_bytes(),
        0 <= p,
        bits::holds(data, p, encoding::block_out(state, block, last, p)),
        out.len() + block.len() <= limit,
    ensures
        stream::blocks(data, p, out, limit) == behind(
            data,
            p + encoding::block_out(state, block, last, p).len(),
            out + block,
            last,
            limit,
        ),
{
    reveal(encoding::block_out);
    lemma_block_codes(state, block);
    if encoding::stores(state, block) {
        lemma_stored_read(data, p, out, block, last, limit);
    } else {
        let ll = encoding::litlen_code(state, block);
        let dl = encoding::dist_code(state, block);
        lemma_coded_read(ll, dl, data, p, out, block, last, limit);
        assert(encoding::coded_bits(ll, dl, block, last).len() > 0);
    }
}

/// Blocks are read back.
pub proof fn lemma_deflate_read(
    state: encoding::State,
    input: Seq<u8>,
    last: bool,
    data: Seq<u8>,
    p: int,
    out: Seq<u8>,
    limit: nat,
)
    requires
        state_ok(state),
        0 <= p,
        bits::holds(data, p, encoding::deflate_bits(state, input, last, p)),
        out.len() + input.len() <= limit,
    ensures
        stream::blocks(data, p, out, limit) == behind(
            data,
            p + encoding::deflate_bits(state, input, last, p).len(),
            out + input,
            last,
            limit,
        ),
        state_ok(encoding::deflate_state(state, input)),
    decreases input.len(),
{
    if input.len() <= encoding::block_bytes() {
        lemma_block_codes(state, input);
        lemma_block_out_read(state, input, last, data, p, out, limit);
    } else {
        let first = input.take(encoding::block_bytes() as int);
        let rest = input.skip(encoding::block_bytes() as int);
        let here = encoding::block_out(state, first, false, p);
        let next = encoding::block_state(state, first);
        let q = p + here.len();
        lemma_block_codes(state, first);
        bits::lemma_holds_concat(data, p, here, encoding::deflate_bits(next, rest, last, q));
        lemma_block_out_read(state, first, false, data, p, out, limit);
        lemma_deflate_read(next, rest, last, data, q, out + first, limit);
        assert(out + first + rest =~= out + input);
    }
}

/// Bits and the number they spell.
pub proof fn lemma_number(bits: Seq<bool>, i: int, n: nat)
    requires
        0 <= i,
        i + n <= bits.len(),
    ensures
        encoding::number(bits, i, n) < pow2(n),
        bits::lsb(encoding::number(bits, i, n), n) == bits.subrange(i, i + n),
    decreases n,
{
    bits::lemma_pow2_small();
    if n == 0 {
        assert(bits::lsb(0, 0) =~= bits.subrange(i, i));
    } else {
        let m = (n - 1) as nat;
        lemma_number(bits, i, m);
        let lo = encoding::number(bits, i, m);
        let top = if bits[i + m] {
            1nat
        } else {
            0nat
        };
        bits::lemma_lsb_concat(lo, m, top, 1);
        bits::lemma_pow2_zero(top);
        assert(bits::lsb(top, 1) =~= seq![bits[i + m]]) by {
            assert(bits::lsb(top, 1)[0] == ((top / pow2(0)) % 2 == 1));
        }
        assert(bits.subrange(i, i + m) + seq![bits[i + m]] =~= bits.subrange(i, i + n));
        bits::lemma_pow2_step(m);
        assert(pow2(m) * top <= pow2(m)) by (nonlinear_arith)
            requires
                top <= 1,
        ;
    }
}

/// Packing bits into bytes keeps them.
pub proof fn lemma_whole_bytes(bits: Seq<bool>)
    ensures
        bits::bits_of(encoding::whole_bytes(bits)) == bits.take(8 * (bits.len() / 8) as int),
{
    let packed = encoding::whole_bytes(bits);
    let all = bits::bits_of(packed);
    let part = bits.take(8 * (bits.len() / 8) as int);
    assert forall|k: int| 0 <= k < part.len() implies all[k] == part[k] by {
        let i = k / 8;
        let v = encoding::number(bits, 8 * i, 8);
        lemma_number(bits, 8 * i, 8);
        bits::lemma_pow2_small();
        assert(packed[i] == v);
        assert(bits::lsb(v, 8)[k % 8] == bits.subrange(8 * i, 8 * i + 8)[k % 8]);
    }
    assert(all =~= part);
}

/// Padded bits fill whole bytes.
pub proof fn lemma_aligned(bits: Seq<bool>)
    ensures
        encoding::aligned(bits).len() % 8 == 0,
        encoding::whole_bytes(encoding::aligned(bits)).len() == stream::byte_at(bits.len() as int),
        bits::bits_of(encoding::whole_bytes(encoding::aligned(bits))) == bits
            + encoding::zero_bits(bits::padding(bits.len() as int) as nat),
{
    let all = encoding::aligned(bits);
    lemma_whole_bytes(all);
    assert(all.take(all.len() as int) =~= all);
}

/// A number of four digits in base 256.
proof fn lemma_digits(v: int)
    requires
        0 <= v <= 0xffff_ffff,
    ensures
        v == 16777216 * ((v / 16777216) % 256) + 65536 * ((v / 65536) % 256) + 256 * ((v / 256)
            % 256) + v % 256,
{
    let a = v / 256;
    let b = a / 256;
    let c = b / 256;
    assert(v / 65536 == b) by {
        lemma_div_denominator(v, 256, 256);
    }
    assert(v / 16777216 == c) by {
        lemma_div_denominator(v, 65536, 256);
    }
    assert(c % 256 == c);
    assert(v == 256 * a + v % 256);
    assert(a == 256 * b + a % 256);
    assert(b == 256 * c + b % 256);
}

/// Four bytes and the number they make.
pub proof fn lemma_be_bytes(v: nat, data: Seq<u8>, at: int)
    requires
        v <= 0xffff_ffff,
        0 <= at,
        at + 4 <= data.len(),
        data.subrange(at, at + 4) == encoding::be_bytes(v),
    ensures
        stream::be32(data, at) == v,
{
    let four = data.subrange(at, at + 4);
    assert(four[0] == data[at]);
    assert(four[1] == data[at + 1]);
    assert(four[2] == data[at + 2]);
    assert(four[3] == data[at + 3]);
    lemma_digits(v as int);
}

/// Pieces that are not the last are read back and reading goes on behind them.
proof fn lemma_after_pieces_read(pieces: Seq<Seq<u8>>, n: nat, data: Seq<u8>, limit: nat)
    requires
        n <= pieces.len(),
        bits::holds(data, 0, encoding::after_pieces(pieces, n).bits),
        encoding::joined(pieces, n).len() <= limit,
    ensures
        stream::blocks(data, 0, Seq::empty(), limit) == stream::blocks(
            data,
            encoding::after_pieces(pieces, n).bits.len() as int,
            encoding::joined(pieces, n),
            limit,
        ),
        state_ok(encoding::after_pieces(pieces, n).state),
        encoding::after_pieces(pieces, n).data == encoding::joined(pieces, n),
    decreases n,
{
    if n > 0 {
        let m = (n - 1) as nat;
        let before = encoding::after_pieces(pieces, m);
        let piece = pieces[m as int];
        let so_far = encoding::joined(pieces, m);
        if piece.len() == 0 {
            assert(so_far + piece =~= so_far);
            lemma_after_pieces_read(pieces, m, data, limit);
        } else {
            let p = before.bits.len() as int;
            let here = encoding::deflate_bits(before.state, piece, false, p);
            bits::lemma_holds_concat(data, 0, before.bits, here);
            lemma_after_pieces_read(pieces, m, data, limit);
            lemma_deflate_read(before.state, piece, false, data, p, so_far, limit);
        }
    }
}

/// What stands between the header of a zlib stream and its end.
spec fn zlib_body(progress: encoding::Progress) -> Seq<u8> {
    encoding::whole_bytes(encoding::aligned(progress.bits)) + encoding::be_bytes(
        adler32::checksum(progress.data),
    )
}

proof fn lemma_body_holds(progress: encoding::Progress)
    ensures
        bits::holds(zlib_body(progress), 0, progress.bits),
{
    let packed = encoding::whole_bytes(encoding::aligned(progress.bits));
    let tail = encoding::be_bytes(adler32::checksum(progress.data));
    lemma_aligned(progress.bits);
    bits::lemma_bits_concat(packed, tail);
    let pad = encoding::zero_bits(bits::padding(progress.bits.len() as int) as nat);
    let rest = pad + bits::bits_of(tail);
    assert(bits::bits_of(zlib_body(progress)) =~= Seq::<bool>::empty() + progress.bits + rest);
    bits::lemma_holds_part(zlib_body(progress), Seq::empty(), progress.bits, rest);
}

/// A finished stream whose blocks are read back is read back whole.
proof fn lemma_framing_read(progress: encoding::Progress, limit: nat, verify: bool)
    requires
        stream::blocks(zlib_body(progress), 0, Seq::empty(), limit) == Ok::<
            (Seq<u8>, int),
            InflateError,
        >((progress.data, progress.bits.len() as int)),
    ensures
        stream::zlib(encoding::finished(progress), limit, verify) == Ok::<Seq<u8>, InflateError>(
            progress.data,
        ),
        stream::inflate(encoding::finished(progress).skip(2), limit) == Ok::<
            (Seq<u8>, int),
            InflateError,
        >((progress.data, encoding::finished(progress).len() - 6)),
{
    let packed = encoding::whole_bytes(encoding::aligned(progress.bits));
    let sum = adler32::checksum(progress.data);
    let tail = encoding::be_bytes(sum);
    let all = encoding::finished(progress);
    let body = zlib_body(progress);
    assert(all =~= seq![0x78u8, 0x01u8] + body);
    assert(all.skip(2) =~= body);
    lemma_aligned(progress.bits);
    assert(stream::inflate(body, limit) == Ok::<(Seq<u8>, int), InflateError>(
        (progress.data, packed.len() as int),
    ));
    adler32::lemma_checksum_bound(progress.data);
    let at = 2 + packed.len() as int;
    assert(all.subrange(at, at + 4) =~= tail);
    lemma_be_bytes(sum, all, at);
    assert(all[0] == 0x78 && all[1] == 0x01);
}

/// A zlib stream written in pieces expands to the pieces one after the other, however the
/// input was cut up.
pub proof fn law_pieces_read_back(pieces: Seq<Seq<u8>>, limit: nat, verify: bool)
    requires
        pieces.len() > 0,
        encoding::joined(pieces, pieces.len()).len() <= limit,
    ensures
        stream::zlib(encoding::zlib_of_pieces(pieces), limit, verify) == Ok::<Seq<u8>, InflateError>(
            encoding::joined(pieces, pieces.len()),
        ),
        stream::inflate(encoding::zlib_of_pieces(pieces).skip(2), limit) == Ok::<
            (Seq<u8>, int),
            InflateError,
        >(
            (
                encoding::joined(pieces, pieces.len()),
                encoding::zlib_of_pieces(pieces).len() - 6,
            ),
        ),
{
    let n = (pieces.len() - 1) as nat;
    let before = encoding::after_pieces(pieces, n);
    let piece = pieces[n as int];
    let whole = encoding::pushed(before, piece, true);
    let body = zlib_body(whole);
    let p = before.bits.len() as int;
    let here = encoding::deflate_bits(before.state, piece, true, p);
    let so_far = encoding::joined(pieces, n);
    lemma_body_holds(whole);
    assert(whole.bits == before.bits + here);
    bits::lemma_holds_concat(body, 0, before.bits, here);
    lemma_after_pieces_read(pieces, n, body, limit);
    lemma_deflate_read(before.state, piece, true, body, p, so_far, limit);
    lemma_framing_read(whole, limit, verify);
}

/// A zlib stream expands to what was compressed, under any limit that leaves room for it.
pub proof fn law_zlib_reads_back(input: Seq<u8>, limit: nat, verify: bool)
    requires
        input.len() <= limit,
    ensures
        stream::zlib(encoding::zlib_bytes(input), limit, verify) == Ok::<Seq<u8>, InflateError>(
            input,
        ),
{
    let pieces = seq![input];
    assert(encoding::after_pieces(pieces, 0) == encoding::started());
    assert(encoding::joined(pieces, 0) == Seq::<u8>::empty());
    assert(encoding::joined(pieces, 1) =~= input);
    law_pieces_read_back(pieces, limit, verify);
}

/// A stream without framing expands to what was compressed, and takes all its bytes.
pub proof fn law_raw_reads_back(input: Seq<u8>, limit: nat)
    requires
        input.len() <= limit,
    ensures
        stream::inflate(encoding::raw_bytes(input), limit) == Ok::<(Seq<u8>, int), InflateError>(
            (input, encoding::raw_bytes(input).len() as int),
        ),
{
    let state = encoding::first_state();
    let bits = encoding::deflate_bits(state, input, true, 0);
    let data = encoding::raw_bytes(input);
    let pad = encoding::zero_bits(bits::padding(bits.len() as int) as nat);
    lemma_aligned(bits);
    assert(bits::bits_of(data) =~= Seq::<bool>::empty() + bits + pad);
    bits::lemma_holds_part(data, Seq::empty(), bits, pad);
    lemma_deflate_read(state, input, true, data, 0, Seq::empty(), limit);
    assert(Seq::<u8>::empty() + input =~= input);
}

/// A stream made of one piece is the stream of the whole input.
pub proof fn law_one_piece_is_the_whole(input: Seq<u8>)
    ensures
        encoding::zlib_of_pieces(seq![input]) == encoding::zlib_bytes(input),
{
    assert(encoding::after_pieces(seq![input], 0) == encoding::started());
}

/// Pieces behind an empty one go on from where the others would.
proof fn lemma_empty_piece(pieces: Seq<Seq<u8>>, at: int, n: nat)
    requires
        0 <= at < n <= pieces.len(),
    ensures
        encoding::after_pieces(pieces.insert(at, Seq::empty()), n) == encoding::after_pieces(
            pieces,
            (n - 1) as nat,
        ),
    decreases n,
{
    let more = pieces.insert(at, Seq::empty());
    if n - 1 > at {
        lemma_empty_piece(pieces, at, (n - 1) as nat);
        assert(more[n - 1] == pieces[n - 2]);
    } else {
        lemma_pieces_before(pieces, at, at as nat);
    }
}

/// Pieces in front of an empty one are not affected by it.
proof fn lemma_pieces_before(pieces: Seq<Seq<u8>>, at: int, n: nat)
    requires
        0 <= n <= at <= pieces.len(),
    ensures
        encoding::after_pieces(pieces.insert(at, Seq::empty()), n) == encoding::after_pieces(
            pieces,
            n,
        ),
    decreases n,
{
    if n > 0 {
        lemma_pieces_before(pieces, at, (n - 1) as nat);
        assert(pieces.insert(at, Seq::empty())[n - 1] == pieces[n - 1]);
    }
}

/// An empty piece anywhere but at the end leaves a stream as it is.
pub proof fn law_empty_piece_adds_nothing(pieces: Seq<Seq<u8>>, at: int)
    requires
        0 <= at < pieces.len(),
    ensures
        encoding::zlib_of_pieces(pieces.insert(at, Seq::empty())) == encoding::zlib_of_pieces(
            pieces,
        ),
{
    lemma_empty_piece(pieces, at, pieces.len());
    assert(pieces.insert(at, Seq::empty())[pieces.len() as int] == pieces[pieces.len() - 1]);
}

} // verus!
