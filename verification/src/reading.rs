//! What a stream expands to, whoever wrote it.
//!
//! A DEFLATE stream is taken here as what it is made of: blocks, each stored or made of
//! literals and matches of any length and distance. The numbers of the format are given by
//! their formulas.

use vstd::prelude::*;
use vstd::arithmetic::power2::*;
use vstd::arithmetic::div_mod::*;
use crate::adler32;
use crate::bits;
use crate::code;
use crate::encoding;
use crate::inflate::InflateError;
use crate::roundtrip;
use crate::stream;
use crate::tables;

verus! {

// ---------------------------------------------------------------------------------------
// Lengths and distances
// ---------------------------------------------------------------------------------------

/// How many extra bits follow length symbol `257 + i`: the lengths come in groups of four
/// symbols, each group with one bit more than the one before it, and the greatest length has
/// a symbol to itself.
pub open spec fn len_bits(i: int) -> nat {
    if i < 8 || i == 28 {
        0
    } else {
        (i / 4 - 1) as nat
    }
}

/// The least length of length symbol `257 + i`.
pub open spec fn len_least(i: int) -> nat {
    if i < 8 {
        (3 + i) as nat
    } else if i == 28 {
        258
    } else {
        (3 + (4 + i % 4) * pow2(len_bits(i))) as nat
    }
}

/// How many extra bits follow distance symbol `s`: the distances come in groups of two
/// symbols.
pub open spec fn dist_bits(s: int) -> nat {
    if s < 4 {
        0
    } else {
        (s / 2 - 1) as nat
    }
}

/// The least distance of distance symbol `s`.
pub open spec fn dist_least(s: int) -> nat {
    if s < 4 {
        (1 + s) as nat
    } else {
        (1 + (2 + s % 2) * pow2(dist_bits(s))) as nat
    }
}

/// Products by the first powers of two.
proof fn lemma_doubled(a: int, b: int)
    ensures
        b == 1 ==> a * b == 1 * a,
        b == 2 ==> a * b == 2 * a,
        b == 4 ==> a * b == 4 * a,
        b == 8 ==> a * b == 8 * a,
        b == 16 ==> a * b == 16 * a,
        b == 32 ==> a * b == 32 * a,
        b == 64 ==> a * b == 64 * a,
        b == 128 ==> a * b == 128 * a,
        b == 256 ==> a * b == 256 * a,
        b == 512 ==> a * b == 512 * a,
        b == 1024 ==> a * b == 1024 * a,
        b == 2048 ==> a * b == 2048 * a,
        b == 4096 ==> a * b == 4096 * a,
        b == 8192 ==> a * b == 8192 * a,
{
}

/// The tables of lengths hold what the format's rule for them gives.
pub proof fn law_length_tables(i: int)
    requires
        0 <= i < 29,
    ensures
        tables::LEN_BASE@[i] == len_least(i),
        tables::LEN_EXTRA@[i] == len_bits(i),
{
    bits::lemma_pow2_small();
    lemma_doubled(4 + i % 4, pow2(len_bits(i)) as int);
}

/// The tables of distances hold what the format's rule for them gives.
pub proof fn law_distance_tables(s: int)
    requires
        0 <= s < 30,
    ensures
        tables::DIST_BASE@[s] == dist_least(s),
        tables::DIST_EXTRA@[s] == dist_bits(s),
{
    bits::lemma_pow2_small();
    lemma_doubled(2 + s % 2, pow2(dist_bits(s)) as int);
}

/// Every length that a match can have belongs to a symbol.
pub proof fn law_length_has_a_symbol(length: nat) -> (i: int)
    requires
        3 <= length <= 258,
    ensures
        0 <= i < 29,
        len_least(i) <= length < len_least(i) + pow2(len_bits(i)),
{
    let i = tables::len_index(length as int);
    tables::lemma_len_index(length as int);
    law_length_tables(i);
    i
}

/// Every distance that a match can have belongs to a symbol.
pub proof fn law_distance_has_a_symbol(distance: nat) -> (s: int)
    requires
        1 <= distance <= 32768,
    ensures
        0 <= s < 30,
        dist_least(s) <= distance < dist_least(s) + pow2(dist_bits(s)),
{
    tables::lemma_dist_range();
    law_distance_tables(29);
    lemma_symbol_below(distance, 29)
}

proof fn lemma_symbol_below(distance: nat, s: int) -> (found: int)
    requires
        1 <= distance,
        0 <= s < 30,
        distance < dist_least(s) + pow2(dist_bits(s)),
    ensures
        0 <= found < 30,
        dist_least(found) <= distance < dist_least(found) + pow2(dist_bits(found)),
    decreases s,
{
    if dist_least(s) <= distance || s == 0 {
        s
    } else {
        tables::lemma_dist_range();
        law_distance_tables(s);
        law_distance_tables(s - 1);
        assert(tables::DIST_BASE@[(s - 1) + 1] == tables::DIST_BASE@[s - 1] + tables::dist_span(
            s - 1,
        ));
        lemma_symbol_below(distance, s - 1)
    }
}

// ---------------------------------------------------------------------------------------
// Literals and matches
// ---------------------------------------------------------------------------------------

/// One step of a compressed block: a byte, or a copy of bytes that came earlier. A match
/// names the symbols `257 + by` and `from` that its length and its distance go with.
pub enum Step {
    Literal { byte: u8 },
    Match { length: nat, distance: nat, by: int, from: int },
}

/// Whether the codes have a codeword for all that the step needs, and a match lies among
/// those of its symbols.
pub open spec fn spelled(litlen: Seq<u8>, dist: Seq<u8>, step: Step) -> bool {
    match step {
        Step::Literal { byte } => code::has_code(litlen, byte as int),
        Step::Match { length, distance, by, from } => {
            &&& 0 <= by < 29
            &&& 0 <= from < 30
            &&& len_least(by) <= length < len_least(by) + pow2(len_bits(by))
            &&& dist_least(from) <= distance < dist_least(from) + pow2(dist_bits(from))
            &&& code::has_code(litlen, 257 + by)
            &&& code::has_code(dist, from)
        },
    }
}

/// The bits of a step: the codeword of a byte, or the codeword of a length, its extra bits,
/// the codeword of a distance and its extra bits.
pub open spec fn step_bits(litlen: Seq<u8>, dist: Seq<u8>, step: Step) -> Seq<bool> {
    match step {
        Step::Literal { byte } => encoding::symbol_bits(litlen, byte as int),
        Step::Match { length, distance, by, from } => encoding::symbol_bits(litlen, 257 + by)
            + bits::lsb((length - len_least(by)) as nat, len_bits(by)) + encoding::symbol_bits(
            dist,
            from,
        ) + bits::lsb((distance - dist_least(from)) as nat, dist_bits(from)),
    }
}

pub open spec fn steps_bits(litlen: Seq<u8>, dist: Seq<u8>, steps: Seq<Step>) -> Seq<bool>
    decreases steps.len(),
{
    if steps.len() == 0 {
        Seq::empty()
    } else {
        step_bits(litlen, dist, steps[0]) + steps_bits(litlen, dist, steps.skip(1))
    }
}

/// What a step makes of the bytes before it: a match repeats the last `distance` of them
/// until there are `length` bytes more.
pub open spec fn played(out: Seq<u8>, step: Step) -> Seq<u8> {
    match step {
        Step::Literal { byte } => out.push(byte),
        Step::Match { length, distance, .. } => out + Seq::new(
            length,
            |j: int| out[out.len() - distance + j % (distance as int)],
        ),
    }
}

/// What the steps make of the bytes before them.
pub open spec fn played_out(out: Seq<u8>, steps: Seq<Step>) -> Seq<u8>
    decreases steps.len(),
{
    if steps.len() == 0 {
        out
    } else {
        played_out(played(out, steps[0]), steps.skip(1))
    }
}

/// Whether no match reaches back further than there are bytes.
pub open spec fn reachable(out: Seq<u8>, steps: Seq<Step>) -> bool
    decreases steps.len(),
{
    steps.len() > 0 ==> {
        &&& steps[0] matches Step::Match { distance, .. } ==> distance <= out.len()
        &&& reachable(played(out, steps[0]), steps.skip(1))
    }
}

/// Copying bytes one at a time repeats the last ones.
proof fn lemma_copy_repeats(out: Seq<u8>, distance: nat, length: nat)
    requires
        1 <= distance <= out.len(),
    ensures
        stream::copy_match(out, distance as int, length) == out + Seq::new(
            length,
            |j: int| out[out.len() - distance + j % (distance as int)],
        ),
    decreases length,
{
    let d = distance as int;
    let whole = out + Seq::new(length, |j: int| out[out.len() - distance + j % d]);
    if length == 0 {
        assert(whole =~= out);
    } else {
        let m = (length - 1) as nat;
        lemma_copy_repeats(out, distance, m);
        let before = stream::copy_match(out, d, m);
        if m < distance {
            lemma_small_mod(m, distance);
        } else {
            lemma_mod_sub_multiples_vanish(m as int, d);
            assert((-d + m) % d == (m - d) % d);
            assert(before[before.len() - d] == out[out.len() - distance + (m - d) % d]);
        }
        lemma_mod_bound(m as int, d);
        assert(before[before.len() - d] == out[out.len() - distance + (m as int) % d]);
        assert(stream::copy_match(out, d, length) =~= whole);
    }
}

/// The bits of a match are read as its length and its distance: for every length from 3 to 258
/// and every distance from 1 to 32768, the least ones of their symbols and the extra bits added
/// up.
pub proof fn law_match_is_read(litlen: Seq<u8>, dist: Seq<u8>, data: Seq<u8>, p: int, step: Step)
    requires
        code::fits(litlen),
        code::fits(dist),
        step is Match,
        spelled(litlen, dist, step),
        bits::holds(data, p, step_bits(litlen, dist, step)),
    ensures
        step matches Step::Match { length, distance, by, from } ==> {
            let q = p + litlen[257 + by];
            &&& code::decode(litlen, data, p) == Some(257 + by)
            &&& stream::back_reference(dist, data, q, by) == Ok::<(nat, int, int), InflateError>(
                (length, distance as int, p + step_bits(litlen, dist, step).len()),
            )
        },
{
    if let Step::Match { length, distance, by, from } = step {
        law_length_tables(by);
        law_distance_tables(from);
        let a = encoding::symbol_bits(litlen, 257 + by);
        let b = bits::lsb((length - len_least(by)) as nat, len_bits(by));
        let c = encoding::symbol_bits(dist, from);
        let d = bits::lsb((distance - dist_least(from)) as nat, dist_bits(from));
        bits::lemma_holds_concat(data, p, a + b + c, d);
        bits::lemma_holds_concat(data, p, a + b, c);
        bits::lemma_holds_concat(data, p, a, b);
        code::lemma_written_code(litlen, data, p, 257 + by);
        let q = p + litlen[257 + by];
        bits::lemma_holds_value(data, q, (length - len_least(by)) as nat, len_bits(by));
        let r = q + len_bits(by);
        assert(r == p + (a + b).len());
        code::lemma_written_code(dist, data, r, from);
        let s = r + dist[from];
        assert(s == p + (a + b + c).len());
        bits::lemma_holds_value(
            data,
            s,
            (distance - dist_least(from)) as nat,
            dist_bits(from),
        );
    }
}

/// A step makes the output no shorter.
proof fn lemma_played_grows(out: Seq<u8>, steps: Seq<Step>)
    ensures
        played_out(out, steps).len() >= out.len(),
    decreases steps.len(),
{
    if steps.len() > 0 {
        lemma_played_grows(played(out, steps[0]), steps.skip(1));
    }
}

/// Coded literals and matches are carried out, whatever their lengths and distances: every
/// literal gives its byte, and every match of length `length` and distance `distance` gives
/// that many bytes, repeating the last `distance` ones. Reading goes on behind them.
pub proof fn law_steps_are_carried_out(
    litlen: Seq<u8>,
    dist: Seq<u8>,
    data: Seq<u8>,
    p: int,
    out: Seq<u8>,
    steps: Seq<Step>,
    limit: nat,
)
    requires
        code::fits(litlen),
        code::fits(dist),
        forall|i: int| 0 <= i < steps.len() ==> spelled(litlen, dist, #[trigger] steps[i]),
        reachable(out, steps),
        bits::holds(data, p, steps_bits(litlen, dist, steps)),
        played_out(out, steps).len() <= limit,
    ensures
        stream::symbols(litlen, dist, data, p, out, limit) == stream::symbols(
            litlen,
            dist,
            data,
            p + steps_bits(litlen, dist, steps).len(),
            played_out(out, steps),
            limit,
        ),
    decreases steps.len(),
{
    if steps.len() > 0 {
        let step = steps[0];
        let rest = steps.skip(1);
        let first = step_bits(litlen, dist, step);
        let others = steps_bits(litlen, dist, rest);
        assert(spelled(litlen, dist, step));
        bits::lemma_holds_concat(data, p, first, others);
        assert forall|i: int| 0 <= i < rest.len() implies spelled(
            litlen,
            dist,
            #[trigger] rest[i],
        ) by {
            assert(rest[i] == steps[i + 1]);
        }
        let grown = played(out, step);
        lemma_played_grows(grown, rest);
        law_steps_are_carried_out(litlen, dist, data, p + first.len(), grown, rest, limit);
        match step {
            Step::Literal { byte } => {
                code::lemma_written_code(litlen, data, p, byte as int);
            },
            Step::Match { length, distance, by, from } => {
                law_match_is_read(litlen, dist, data, p, step);
                lemma_copy_repeats(out, distance, length);
                law_length_tables(by);
                tables::lemma_len_range();
            },
        }
    }
}

/// A block of literals and matches expands to what they make, up to the end of the block.
pub proof fn law_block_is_carried_out(
    litlen: Seq<u8>,
    dist: Seq<u8>,
    data: Seq<u8>,
    p: int,
    out: Seq<u8>,
    steps: Seq<Step>,
    limit: nat,
)
    requires
        code::fits(litlen),
        code::fits(dist),
        code::has_code(litlen, 256),
        forall|i: int| 0 <= i < steps.len() ==> spelled(litlen, dist, #[trigger] steps[i]),
        reachable(out, steps),
        bits::holds(
            data,
            p,
            steps_bits(litlen, dist, steps) + encoding::symbol_bits(litlen, 256),
        ),
        played_out(out, steps).len() <= limit,
    ensures
        stream::symbols(litlen, dist, data, p, out, limit) == Ok::<(Seq<u8>, int), InflateError>(
            (
                played_out(out, steps),
                p + (steps_bits(litlen, dist, steps) + encoding::symbol_bits(litlen, 256)).len(),
            ),
        ),
{
    let all = steps_bits(litlen, dist, steps);
    let end = encoding::symbol_bits(litlen, 256);
    bits::lemma_holds_concat(data, p, all, end);
    law_steps_are_carried_out(litlen, dist, data, p, out, steps, limit);
    code::lemma_written_code(litlen, data, p + all.len(), 256);
}

// ---------------------------------------------------------------------------------------
// Fixed codes
// ---------------------------------------------------------------------------------------

/// The lengths of the fixed literal/length code: eight bits, nine from 144 on, seven from 256
/// on and eight again from 280 on.
pub open spec fn fixed_litlen() -> Seq<u8> {
    Seq::new(
        288,
        |i: int|
            if i < 144 {
                8u8
            } else if i < 256 {
                9u8
            } else if i < 280 {
                7u8
            } else {
                8u8
            },
    )
}

/// The lengths of the fixed distance code: five bits each.
pub open spec fn fixed_dist() -> Seq<u8> {
    Seq::new(32, |i: int| 5u8)
}

/// The fixed codes are those of the format.
pub proof fn law_fixed_codes()
    ensures
        tables::FIXED_LITLEN_LENGTHS@ == fixed_litlen(),
        tables::FIXED_DIST_LENGTHS@ == fixed_dist(),
{
    assert forall|i: int| 0 <= i < 288 implies tables::FIXED_LITLEN_LENGTHS@[i]
        == fixed_litlen()[i] by {
        tables::lemma_fixed_litlen_values(i);
    }
    assert(tables::FIXED_LITLEN_LENGTHS@ =~= fixed_litlen());
    assert(tables::FIXED_DIST_LENGTHS@ =~= fixed_dist());
}

// ---------------------------------------------------------------------------------------
// Described codes
// ---------------------------------------------------------------------------------------

/// The symbol whose length stands at place `j` of a block header: the three repeats, zero,
/// and the others from eight outwards.
pub open spec fn header_order(j: int) -> int {
    if j < 3 {
        16 + j
    } else if j == 3 {
        0
    } else if j % 2 == 0 {
        8 + (j - 4) / 2
    } else {
        7 - (j - 5) / 2
    }
}

/// The order of the header is that of the format.
pub proof fn law_header_order(j: int)
    requires
        0 <= j < 19,
    ensures
        tables::CLCL_ORDER@[j] == header_order(j),
{
}

/// Lengths with what one symbol of the header adds: itself, three to six copies of the last
/// length, three to ten zeros, or eleven to 138 zeros.
pub open spec fn told(lengths: Seq<u8>, symbol: u8, extra: u8) -> Seq<u8> {
    if symbol < 16 {
        lengths.push(symbol)
    } else if symbol == 16 {
        lengths + Seq::new((3 + extra) as nat, |i: int| lengths.last())
    } else if symbol == 17 {
        lengths + Seq::new((3 + extra) as nat, |i: int| 0u8)
    } else {
        lengths + Seq::new((11 + extra) as nat, |i: int| 0u8)
    }
}

/// The lengths that the symbols of a header add up to.
pub open spec fn told_by(lengths: Seq<u8>, symbols: Seq<(u8, u8, u8)>) -> Seq<u8>
    decreases symbols.len(),
{
    if symbols.len() == 0 {
        lengths
    } else {
        told_by(told(lengths, symbols[0].0, symbols[0].2), symbols.skip(1))
    }
}

/// The header of a block that describes its codes: how many lengths of each kind it holds,
/// the code that they are coded with, and the symbols that give them. A symbol stands with
/// the number of its extra bits and their value.
pub struct Header {
    pub hlit: nat,
    pub hdist: nat,
    pub hclen: nat,
    pub clcl: Seq<u8>,
    pub symbols: Seq<(u8, u8, u8)>,
}

impl Header {
    /// The lengths of both codes.
    pub open spec fn lengths(self) -> Seq<u8> {
        told_by(Seq::empty(), self.symbols)
    }

    /// The literal/length code.
    pub open spec fn litlen(self) -> Seq<u8> {
        self.lengths().take(self.hlit as int)
    }

    /// The distance code.
    pub open spec fn dist(self) -> Seq<u8> {
        self.lengths().skip(self.hlit as int) + Seq::new((32 - self.hdist) as nat, |i: int| 0u8)
    }

    /// The bits of the header.
    pub open spec fn bits(self) -> Seq<bool> {
        bits::lsb((self.hlit - 257) as nat, 5) + bits::lsb((self.hdist - 1) as nat, 5) + bits::lsb(
            (self.hclen - 4) as nat,
            4,
        ) + ordered_bits(self.clcl, self.hclen) + encoding::length_symbol_bits(
            self.clcl,
            self.symbols,
        )
    }

    /// Whether the header describes codes that a block may use: up to 286 literal/length and
    /// 30 distance symbols, a complete code for their lengths, a complete literal/length code,
    /// and a distance code that is complete or has one codeword at most.
    pub open spec fn valid(self) -> bool {
        &&& 257 <= self.hlit <= 286
        &&& 1 <= self.hdist <= 30
        &&& 4 <= self.hclen <= 19
        &&& self.clcl.len() == 19
        &&& forall|s: int| 0 <= s < 19 ==> #[trigger] self.clcl[s] < 8
        &&& forall|j: int|
            self.hclen <= j < 19 ==> self.clcl[#[trigger] header_order(j)] == 0
        &&& code::complete(self.clcl)
        &&& roundtrip::all_proper(self.symbols)
        &&& forall|i: int|
            0 <= i < self.symbols.len() ==> code::has_code(
                self.clcl,
                (#[trigger] self.symbols[i]).0 as int,
            )
        &&& self.symbols.len() > 0 ==> self.symbols[0].0 != 16
        &&& self.lengths().len() == self.hlit + self.hdist
        &&& code::complete(self.litlen())
        &&& code::complete(self.dist()) || exists|s: int|
            0 <= s < 32 && #[trigger] code::only_at(self.dist(), s)
    }
}

/// Three bits for each of the first `n` places of the header order.
pub open spec fn ordered_bits(clcl: Seq<u8>, n: nat) -> Seq<bool>
    decreases n,
{
    if n == 0 {
        Seq::empty()
    } else {
        ordered_bits(clcl, (n - 1) as nat) + bits::lsb(clcl[header_order(n - 1)] as nat, 3)
    }
}

proof fn lemma_ordered_bits(clcl: Seq<u8>, n: nat)
    requires
        n <= 19,
    ensures
        ordered_bits(clcl, n) == encoding::clcl_bits(clcl, n),
        ordered_bits(clcl, n).len() == 3 * n,
    decreases n,
{
    if n > 0 {
        lemma_ordered_bits(clcl, (n - 1) as nat);
        law_header_order(n - 1);
    }
}

proof fn lemma_told(lengths: Seq<u8>, symbols: Seq<(u8, u8, u8)>)
    requires
        roundtrip::all_proper(symbols),
        forall|k: int| 0 <= k < lengths.len() ==> #[trigger] lengths[k] < 16,
    ensures
        told_by(lengths, symbols) == roundtrip::expand_lengths(lengths, symbols),
        lengths.len() > 0 || symbols.len() == 0 || symbols[0].0 != 16 ==> forall|k: int|
            0 <= k < told_by(lengths, symbols).len() ==> #[trigger] told_by(lengths, symbols)[k] < 16,
    decreases symbols.len(),
{
    if symbols.len() > 0 {
        let rest = symbols.skip(1);
        let first = symbols[0];
        let more = told(lengths, first.0, first.2);
        assert(roundtrip::proper(first));
        assert(more =~= roundtrip::grown(lengths, first));
        assert forall|i: int| 0 <= i < rest.len() implies roundtrip::proper(#[trigger] rest[i]) by {
            assert(rest[i] == symbols[i + 1]);
        }
        if lengths.len() > 0 || first.0 != 16 {
            assert forall|k: int| 0 <= k < more.len() implies #[trigger] more[k] < 16 by {
                if k < lengths.len() {
                    assert(more[k] == lengths[k]);
                } else if first.0 == 16 {
                    assert(lengths[lengths.len() - 1] < 16);
                }
            }
            lemma_told(more, rest);
        } else {
            lemma_told_equal(more, rest);
        }
    }
}

proof fn lemma_told_equal(lengths: Seq<u8>, symbols: Seq<(u8, u8, u8)>)
    requires
        roundtrip::all_proper(symbols),
    ensures
        told_by(lengths, symbols) == roundtrip::expand_lengths(lengths, symbols),
    decreases symbols.len(),
{
    if symbols.len() > 0 {
        let rest = symbols.skip(1);
        let first = symbols[0];
        let more = told(lengths, first.0, first.2);
        assert(roundtrip::proper(first));
        assert(more =~= roundtrip::grown(lengths, first));
        assert forall|i: int| 0 <= i < rest.len() implies roundtrip::proper(#[trigger] rest[i]) by {
            assert(rest[i] == symbols[i + 1]);
        }
        lemma_told_equal(more, rest);
    }
}

/// The codes that a header describes are the codes that are read from it.
pub proof fn law_header_is_read(data: Seq<u8>, p: int, header: Header)
    requires
        header.valid(),
        bits::holds(data, p, header.bits()),
    ensures
        stream::dynamic_codes(data, p) == Ok::<(Seq<u8>, Seq<u8>, int), InflateError>(
            (header.litlen(), header.dist(), p + header.bits().len()),
        ),
        code::fits(header.litlen()),
        code::fits(header.dist()),
{
    let clcl = header.clcl;
    let symbols = header.symbols;
    let n = header.hclen;
    let b0 = bits::lsb((header.hlit - 257) as nat, 5);
    let b1 = bits::lsb((header.hdist - 1) as nat, 5);
    let b2 = bits::lsb((n - 4) as nat, 4);
    let b3 = ordered_bits(clcl, n);
    let b4 = encoding::length_symbol_bits(clcl, symbols);
    bits::lemma_holds_concat(data, p, b0 + b1 + b2 + b3, b4);
    bits::lemma_holds_concat(data, p, b0 + b1 + b2, b3);
    bits::lemma_holds_concat(data, p, b0 + b1, b2);
    bits::lemma_holds_concat(data, p, b0, b1);
    bits::lemma_pow2_small();
    bits::lemma_holds_value(data, p, (header.hlit - 257) as nat, 5);
    bits::lemma_holds_value(data, p + 5, (header.hdist - 1) as nat, 5);
    bits::lemma_holds_value(data, p + 10, (n - 4) as nat, 4);
    lemma_ordered_bits(clcl, n);
    roundtrip::lemma_clcl_read(clcl, data, p + 14, n);
    let got = stream::clcl_lengths(data, p + 14, n);
    assert(got =~= clcl) by {
        assert forall|t: int| 0 <= t < 19 implies got[t] == clcl[t] by {
            tables::lemma_clcl_place(t);
            let j = tables::clcl_place(t);
            law_header_order(j);
            assert(tables::CLCL_ORDER@[j] == t);
            if j >= n {
                assert(clcl[header_order(j)] == 0);
            }
        }
    }
    lemma_told(Seq::empty(), symbols);
    roundtrip::lemma_lengths_read(
        clcl,
        data,
        p + 14 + 3 * n,
        Seq::empty(),
        symbols,
        header.hlit + header.hdist,
    );
    let lengths = header.lengths();
    let dist = header.dist();
    assert((32 - (lengths.len() - header.hlit)) as nat == (32 - header.hdist) as nat);
    assert(code::in_range(dist)) by {
        assert forall|i: int| 0 <= i < dist.len() implies #[trigger] dist[i] <= 15 by {
            if i < header.hdist {
                assert(dist[i] == lengths[header.hlit + i]);
            }
        }
    }
    if !code::complete(dist) {
        let s = choose|s: int| 0 <= s < 32 && #[trigger] code::only_at(dist, s);
        code::lemma_lone(dist, s);
    }
}

// ---------------------------------------------------------------------------------------
// Blocks and streams
// ---------------------------------------------------------------------------------------

/// A block: bytes as they are, behind bits that fill up a byte and mean nothing, or literals
/// and matches under the fixed codes or under codes of its own.
pub enum Block {
    Stored { filler: Seq<bool>, raw: Seq<u8> },
    Fixed { steps: Seq<Step> },
    Dynamic { header: Header, steps: Seq<Step> },
}

/// Whether a block that begins at bit `p` can be written behind the bytes `out`.
pub open spec fn sound(block: Block, p: int, out: Seq<u8>) -> bool {
    match block {
        Block::Stored { filler, raw } => (p + 3 + filler.len()) % 8 == 0 && filler.len() < 8
            && raw.len() <= 65535,
        Block::Fixed { steps } => {
            &&& forall|i: int|
                0 <= i < steps.len() ==> spelled(fixed_litlen(), fixed_dist(), #[trigger] steps[i])
            &&& reachable(out, steps)
        },
        Block::Dynamic { header, steps } => {
            &&& header.valid()
            &&& code::has_code(header.litlen(), 256)
            &&& forall|i: int|
                0 <= i < steps.len() ==> spelled(
                    header.litlen(),
                    header.dist(),
                    #[trigger] steps[i],
                )
            &&& reachable(out, steps)
        },
    }
}

/// The bits of a block: whether it is the last, its kind, and what it holds. A stored block
/// gives its length twice, the second time inverted.
pub open spec fn block_bits(block: Block, last: bool) -> Seq<bool> {
    match block {
        Block::Stored { filler, raw } => seq![last] + bits::lsb(0, 2) + filler + bits::lsb(
            raw.len(),
            16,
        ) + bits::lsb((65535 - raw.len()) as nat, 16) + bits::bits_of(raw),
        Block::Fixed { steps } => seq![last] + bits::lsb(1, 2) + (steps_bits(
            fixed_litlen(),
            fixed_dist(),
            steps,
        ) + encoding::symbol_bits(fixed_litlen(), 256)),
        Block::Dynamic { header, steps } => seq![last] + bits::lsb(2, 2) + header.bits() + (
        steps_bits(header.litlen(), header.dist(), steps) + encoding::symbol_bits(
            header.litlen(),
            256,
        )),
    }
}

/// What a block makes of the bytes before it.
pub open spec fn block_out(block: Block, out: Seq<u8>) -> Seq<u8> {
    match block {
        Block::Stored { raw, .. } => out + raw,
        Block::Fixed { steps } => played_out(out, steps),
        Block::Dynamic { steps, .. } => played_out(out, steps),
    }
}

/// Whether blocks can be written one after the other.
pub open spec fn all_sound(blocks: Seq<Block>, p: int, out: Seq<u8>) -> bool
    decreases blocks.len(),
{
    blocks.len() > 0 ==> sound(blocks[0], p, out) && all_sound(
        blocks.skip(1),
        p + block_bits(blocks[0], blocks.len() == 1).len(),
        block_out(blocks[0], out),
    )
}

/// The bits of blocks, of which the last is marked as such.
pub open spec fn blocks_bits(blocks: Seq<Block>) -> Seq<bool>
    decreases blocks.len(),
{
    if blocks.len() == 0 {
        Seq::empty()
    } else {
        block_bits(blocks[0], blocks.len() == 1) + blocks_bits(blocks.skip(1))
    }
}

/// What blocks make of the bytes before them.
pub open spec fn blocks_out(blocks: Seq<Block>, out: Seq<u8>) -> Seq<u8>
    decreases blocks.len(),
{
    if blocks.len() == 0 {
        out
    } else {
        blocks_out(blocks.skip(1), block_out(blocks[0], out))
    }
}

proof fn lemma_stored_parts(data: Seq<u8>, p: int, filler: Seq<bool>, raw: Seq<u8>, last: bool)
    requires
        0 <= p,
        sound(Block::Stored { filler, raw }, p, Seq::empty()),
        bits::holds(data, p, block_bits(Block::Stored { filler, raw }, last)),
    ensures
        ({
            let start = stream::byte_at(p + 3);
            &&& bits::bit(data, p) == (if last {
                1nat
            } else {
                0
            })
            &&& bits::value(data, p + 1, 2) == 0
            &&& bits::value(data, 8 * start, 16) == raw.len()
            &&& bits::value(data, 8 * (start + 2), 16) == 65535 - raw.len()
            &&& bits::holds(data, 8 * (start + 4), bits::bits_of(raw))
            &&& p + block_bits(Block::Stored { filler, raw }, last).len() == 8 * (start + 4
                + raw.len())
        }),
{
    let b0 = seq![last];
    let b1 = bits::lsb(0, 2);
    let b2 = filler;
    let b3 = bits::lsb(raw.len(), 16);
    let b4 = bits::lsb((65535 - raw.len()) as nat, 16);
    let b5 = bits::bits_of(raw);
    let start = (p + 3 + filler.len()) / 8;
    assert(8 * start == p + 3 + filler.len());
    assert(start == stream::byte_at(p + 3));
    bits::lemma_holds_concat(data, p, b0 + b1 + b2 + b3 + b4, b5);
    bits::lemma_holds_concat(data, p, b0 + b1 + b2 + b3, b4);
    bits::lemma_holds_concat(data, p, b0 + b1 + b2, b3);
    bits::lemma_holds_concat(data, p, b0 + b1, b2);
    bits::lemma_holds_concat(data, p, b0, b1);
    assert(b0[0] == (bits::bit(data, p + 0) == 1));
    bits::lemma_bit_bound(data, p);
    bits::lemma_pow2_small();
    bits::lemma_holds_value(data, p + 1, 0, 2);
    bits::lemma_holds_value(data, 8 * start, raw.len(), 16);
    bits::lemma_holds_value(data, 8 * start + 16, (65535 - raw.len()) as nat, 16);
    assert(b5.len() == 8 * raw.len());
}

/// The two fields in front of what a block holds.
proof fn lemma_block_front(data: Seq<u8>, p: int, last: bool, kind: nat, rest: Seq<bool>)
    requires
        kind < 4,
        bits::holds(data, p, seq![last] + bits::lsb(kind, 2) + rest),
    ensures
        bits::bit(data, p) == (if last {
            1nat
        } else {
            0
        }),
        bits::value(data, p + 1, 2) == kind,
        bits::holds(data, p + 3, rest),
{
    let b0 = seq![last];
    let b1 = bits::lsb(kind, 2);
    bits::lemma_holds_concat(data, p, b0 + b1, rest);
    bits::lemma_holds_concat(data, p, b0, b1);
    assert(b0[0] == (bits::bit(data, p + 0) == 1));
    bits::lemma_bit_bound(data, p);
    bits::lemma_pow2_small();
    bits::lemma_holds_value(data, p + 1, kind, 2);
}

proof fn lemma_stored_is_read(
    data: Seq<u8>,
    p: int,
    block: Block,
    last: bool,
    out: Seq<u8>,
    limit: nat,
)
    requires
        0 <= p,
        block is Stored,
        sound(block, p, out),
        bits::holds(data, p, block_bits(block, last)),
        block_out(block, out).len() <= limit,
    ensures
        stream::block(data, p + 1, out, limit) == Ok::<(Seq<u8>, int), InflateError>(
            (block_out(block, out), p + block_bits(block, last).len()),
        ),
        bits::bit(data, p) == (if last {
            1nat
        } else {
            0
        }),
        block_bits(block, last).len() > 0,
{
    reveal(stream::block);
    if let Block::Stored { filler, raw } = block {
        let start = stream::byte_at(p + 3);
        lemma_stored_parts(data, p, filler, raw, last);
        roundtrip::lemma_bytes_read(data, start + 4, raw);
        roundtrip::lemma_value_16(data, start);
        roundtrip::lemma_value_16(data, start + 2);
        assert(out + data.subrange(start + 4, start + 4 + raw.len()) =~= out + raw);
    }
}

proof fn lemma_fixed_is_read(
    data: Seq<u8>,
    p: int,
    block: Block,
    last: bool,
    out: Seq<u8>,
    limit: nat,
)
    requires
        0 <= p,
        block is Fixed,
        sound(block, p, out),
        bits::holds(data, p, block_bits(block, last)),
        block_out(block, out).len() <= limit,
    ensures
        stream::block(data, p + 1, out, limit) == Ok::<(Seq<u8>, int), InflateError>(
            (block_out(block, out), p + block_bits(block, last).len()),
        ),
        bits::bit(data, p) == (if last {
            1nat
        } else {
            0
        }),
        block_bits(block, last).len() > 0,
{
    reveal(stream::block);
    if let Block::Fixed { steps } = block {
        let litlen = fixed_litlen();
        let dist = fixed_dist();
        let rest = steps_bits(litlen, dist, steps) + encoding::symbol_bits(litlen, 256);
        law_fixed_codes();
        tables::lemma_fixed_litlen();
        tables::lemma_fixed_dist();
        lemma_block_front(data, p, last, 1, rest);
        law_block_is_carried_out(litlen, dist, data, p + 3, out, steps, limit);
    }
}

proof fn lemma_dynamic_is_read(
    data: Seq<u8>,
    p: int,
    block: Block,
    last: bool,
    out: Seq<u8>,
    limit: nat,
)
    requires
        0 <= p,
        block is Dynamic,
        sound(block, p, out),
        bits::holds(data, p, block_bits(block, last)),
        block_out(block, out).len() <= limit,
    ensures
        stream::block(data, p + 1, out, limit) == Ok::<(Seq<u8>, int), InflateError>(
            (block_out(block, out), p + block_bits(block, last).len()),
        ),
        bits::bit(data, p) == (if last {
            1nat
        } else {
            0
        }),
        block_bits(block, last).len() > 0,
{
    if let Block::Dynamic { header, steps } = block {
        let litlen = header.litlen();
        let dist = header.dist();
        let body = steps_bits(litlen, dist, steps) + encoding::symbol_bits(litlen, 256);
        let front = seq![last] + bits::lsb(2, 2);
        assert(front + header.bits() + body =~= front + (header.bits() + body));
        lemma_block_front(data, p, last, 2, header.bits() + body);
        bits::lemma_holds_concat(data, p + 3, header.bits(), body);
        law_header_is_read(data, p + 3, header);
        let q = p + 3 + header.bits().len();
        law_block_is_carried_out(litlen, dist, data, q, out, steps, limit);
        assert(stream::block(data, p + 1, out, limit) == stream::symbols(
            litlen,
            dist,
            data,
            q,
            out,
            limit,
        )) by {
            reveal(stream::block);
        }
    }
}

/// A block of any kind is read as what it makes.
pub proof fn law_block_is_read(
    data: Seq<u8>,
    p: int,
    block: Block,
    last: bool,
    out: Seq<u8>,
    limit: nat,
)
    requires
        0 <= p,
        sound(block, p, out),
        bits::holds(data, p, block_bits(block, last)),
        block_out(block, out).len() <= limit,
    ensures
        stream::block(data, p + 1, out, limit) == Ok::<(Seq<u8>, int), InflateError>(
            (block_out(block, out), p + block_bits(block, last).len()),
        ),
        bits::bit(data, p) == (if last {
            1nat
        } else {
            0
        }),
        block_bits(block, last).len() > 0,
{
    match block {
        Block::Stored { .. } => lemma_stored_is_read(data, p, block, last, out, limit),
        Block::Fixed { .. } => lemma_fixed_is_read(data, p, block, last, out, limit),
        Block::Dynamic { .. } => lemma_dynamic_is_read(data, p, block, last, out, limit),
    }
}

proof fn lemma_blocks_grow(blocks: Seq<Block>, out: Seq<u8>)
    ensures
        blocks_out(blocks, out).len() >= out.len(),
    decreases blocks.len(),
{
    if blocks.len() > 0 {
        let more = block_out(blocks[0], out);
        match blocks[0] {
            Block::Stored { .. } => {},
            Block::Fixed { steps } => lemma_played_grows(out, steps),
            Block::Dynamic { steps, .. } => lemma_played_grows(out, steps),
        }
        lemma_blocks_grow(blocks.skip(1), more);
    }
}

proof fn lemma_blocks_read(data: Seq<u8>, p: int, blocks: Seq<Block>, out: Seq<u8>, limit: nat)
    requires
        0 <= p,
        blocks.len() > 0,
        all_sound(blocks, p, out),
        bits::holds(data, p, blocks_bits(blocks)),
        blocks_out(blocks, out).len() <= limit,
    ensures
        stream::blocks(data, p, out, limit) == Ok::<(Seq<u8>, int), InflateError>(
            (blocks_out(blocks, out), p + blocks_bits(blocks).len()),
        ),
    decreases blocks.len(),
{
    let first = blocks[0];
    let rest = blocks.skip(1);
    let last = blocks.len() == 1;
    let here = block_bits(first, last);
    let more = block_out(first, out);
    bits::lemma_holds_concat(data, p, here, blocks_bits(rest));
    lemma_blocks_grow(rest, more);
    law_block_is_read(data, p, first, last, out, limit);
    if !last {
        lemma_blocks_read(data, p + here.len(), rest, more, limit);
    } else {
        assert(rest.len() == 0);
        assert(blocks_bits(rest) =~= Seq::<bool>::empty());
    }
}

/// A DEFLATE stream expands to what its blocks make one after the other, whichever kinds of
/// block, codes, lengths and distances it was written with, and takes the bytes that its bits
/// reach into. What follows in the data plays no part.
pub proof fn law_any_stream_expands(data: Seq<u8>, blocks: Seq<Block>, limit: nat)
    requires
        blocks.len() > 0,
        all_sound(blocks, 0, Seq::empty()),
        bits::holds(data, 0, blocks_bits(blocks)),
        blocks_out(blocks, Seq::empty()).len() <= limit,
    ensures
        stream::inflate(data, limit) == Ok::<(Seq<u8>, int), InflateError>(
            (blocks_out(blocks, Seq::empty()), (blocks_bits(blocks).len() as int + 7) / 8),
        ),
{
    lemma_blocks_read(data, 0, blocks, Seq::empty(), limit);
}

/// A zlib stream expands to what its blocks make: behind a header for DEFLATE with any window
/// of up to 32 KiB and no dictionary, and in front of the checksum of the expanded bytes, the
/// most significant byte first. Bytes behind the checksum play no part.
pub proof fn law_any_zlib_stream_expands(
    data: Seq<u8>,
    blocks: Seq<Block>,
    limit: nat,
    verify: bool,
)
    requires
        blocks.len() > 0,
        all_sound(blocks, 0, Seq::empty()),
        bits::holds(data.skip(2), 0, blocks_bits(blocks)),
        blocks_out(blocks, Seq::empty()).len() <= limit,
        data.len() >= 2 + (blocks_bits(blocks).len() + 7) / 8 + 4,
        data[0] == 0x08 || data[0] == 0x18 || data[0] == 0x28 || data[0] == 0x38 || data[0] == 0x48
            || data[0] == 0x58 || data[0] == 0x68 || data[0] == 0x78,
        (data[0] * 256 + data[1]) % 31 == 0,
        (data[1] as int / 32) % 2 == 0,
        verify ==> ({
            let at = 2 + (blocks_bits(blocks).len() as int + 7) / 8;
            adler32::checksum(blocks_out(blocks, Seq::empty())) == data[at] * 0x100_0000 + data[at
                + 1] * 0x1_0000 + data[at + 2] * 0x100 + data[at + 3]
        }),
    ensures
        stream::zlib(data, limit, verify) == Ok::<Seq<u8>, InflateError>(
            blocks_out(blocks, Seq::empty()),
        ),
{
    law_any_stream_expands(data.skip(2), blocks, limit);
}

// ---------------------------------------------------------------------------------------
// What is refused
// ---------------------------------------------------------------------------------------

/// Whether literals and matches stand at `p`, can be carried out there, and stay within the
/// limit.
pub open spec fn goes_well(
    litlen: Seq<u8>,
    dist: Seq<u8>,
    data: Seq<u8>,
    p: int,
    out: Seq<u8>,
    steps: Seq<Step>,
    limit: nat,
) -> bool {
    &&& code::fits(litlen)
    &&& code::fits(dist)
    &&& forall|i: int| 0 <= i < steps.len() ==> spelled(litlen, dist, #[trigger] steps[i])
    &&& reachable(out, steps)
    &&& bits::holds(data, p, steps_bits(litlen, dist, steps))
    &&& played_out(out, steps).len() <= limit
}

/// A match that reaches back further than there are bytes is refused, and so is a step that
/// would make the output longer than the limit.
pub proof fn law_step_is_refused(
    litlen: Seq<u8>,
    dist: Seq<u8>,
    data: Seq<u8>,
    p: int,
    out: Seq<u8>,
    steps: Seq<Step>,
    step: Step,
    limit: nat,
)
    requires
        goes_well(litlen, dist, data, p, out, steps, limit),
        spelled(litlen, dist, step),
        bits::holds(
            data,
            p + steps_bits(litlen, dist, steps).len(),
            step_bits(litlen, dist, step),
        ),
    ensures
        step matches Step::Match { distance, .. } && distance > played_out(out, steps).len()
            ==> stream::symbols(litlen, dist, data, p, out, limit) == Err::<
            (Seq<u8>, int),
            InflateError,
        >(InflateError::DistanceTooFarBack),
        (step matches Step::Match { distance, .. } ==> distance <= played_out(out, steps).len())
            && played(played_out(out, steps), step).len() > limit ==> stream::symbols(
            litlen,
            dist,
            data,
            p,
            out,
            limit,
        ) == Err::<(Seq<u8>, int), InflateError>(InflateError::OutputOverflow),
{
    law_steps_are_carried_out(litlen, dist, data, p, out, steps, limit);
    let q = p + steps_bits(litlen, dist, steps).len();
    match step {
        Step::Literal { byte } => {
            code::lemma_written_code(litlen, data, q, byte as int);
        },
        Step::Match { length, distance, by, from } => {
            law_match_is_read(litlen, dist, data, q, step);
        },
    }
}

/// The symbols that the fixed codes have beyond those of the format are refused: above 285
/// for literals and lengths, above 29 for distances.
pub proof fn law_reserved_symbol_is_refused(
    litlen: Seq<u8>,
    dist: Seq<u8>,
    data: Seq<u8>,
    p: int,
    out: Seq<u8>,
    steps: Seq<Step>,
    length: nat,
    by: int,
    symbol: int,
    limit: nat,
)
    requires
        goes_well(litlen, dist, data, p, out, steps, limit),
    ensures
        symbol > 285 && code::has_code(litlen, symbol) && bits::holds(
            data,
            p + steps_bits(litlen, dist, steps).len(),
            encoding::symbol_bits(litlen, symbol),
        ) ==> stream::symbols(litlen, dist, data, p, out, limit) == Err::<
            (Seq<u8>, int),
            InflateError,
        >(InflateError::InvalidLiteralLengthCode),
        0 <= by < 29 && len_least(by) <= length < len_least(by) + pow2(len_bits(by)) && symbol > 29
            && code::has_code(litlen, 257 + by) && code::has_code(dist, symbol) && bits::holds(
            data,
            p + steps_bits(litlen, dist, steps).len(),
            encoding::symbol_bits(litlen, 257 + by) + bits::lsb(
                (length - len_least(by)) as nat,
                len_bits(by),
            ) + encoding::symbol_bits(dist, symbol),
        ) ==> stream::symbols(litlen, dist, data, p, out, limit) == Err::<
            (Seq<u8>, int),
            InflateError,
        >(InflateError::InvalidDistanceCode),
{
    law_steps_are_carried_out(litlen, dist, data, p, out, steps, limit);
    let q = p + steps_bits(litlen, dist, steps).len();
    if symbol > 285 && code::has_code(litlen, symbol) && bits::holds(
        data,
        q,
        encoding::symbol_bits(litlen, symbol),
    ) {
        code::lemma_written_code(litlen, data, q, symbol);
    }
    let a = encoding::symbol_bits(litlen, 257 + by);
    let b = bits::lsb((length - len_least(by)) as nat, len_bits(by));
    let c = encoding::symbol_bits(dist, symbol);
    if 0 <= by < 29 && symbol > 29 && code::has_code(litlen, 257 + by) && code::has_code(
        dist,
        symbol,
    ) && bits::holds(data, q, a + b + c) {
        law_length_tables(by);
        bits::lemma_holds_concat(data, q, a + b, c);
        bits::lemma_holds_concat(data, q, a, b);
        code::lemma_written_code(litlen, data, q, 257 + by);
        code::lemma_written_code(dist, data, q + (a + b).len(), symbol);
    }
}

/// What the first bits of a block can be refused for, in this order: a kind that the format
/// does not have; a stored length and its inversion that do not go together; more than 286
/// literal/length or 30 distance symbols.
pub proof fn law_block_header_is_refused(data: Seq<u8>, p: int, out: Seq<u8>, limit: nat)
    requires
        0 <= p,
        p + 3 <= 8 * data.len(),
    ensures
        bits::value(data, p + 1, 2) == 3 ==> stream::block(data, p + 1, out, limit) == Err::<
            (Seq<u8>, int),
            InflateError,
        >(InflateError::InvalidBlockType),
        bits::value(data, p + 1, 2) == 0 ==> ({
            let at = (p + 3 + 7) / 8;
            at + 4 <= data.len() && (data[at] as int + data[at + 2] != 255 || data[at + 1] as int
                + data[at + 3] != 255) ==> stream::block(data, p + 1, out, limit) == Err::<
                (Seq<u8>, int),
                InflateError,
            >(InflateError::InvalidStoredLength)
        }),
        bits::value(data, p + 1, 2) == 2 && bits::value(data, p + 3, 5) > 29 ==> stream::block(
            data,
            p + 1,
            out,
            limit,
        ) == Err::<(Seq<u8>, int), InflateError>(InflateError::InvalidHlit),
        bits::value(data, p + 1, 2) == 2 && bits::value(data, p + 3, 5) <= 29 && bits::value(
            data,
            p + 8,
            5,
        ) > 29 ==> stream::block(data, p + 1, out, limit) == Err::<(Seq<u8>, int), InflateError>(
            InflateError::InvalidHdist,
        ),
{
    reveal(stream::block);
}

/// A zlib header is refused if it names another method than DEFLATE, a window above 32 KiB,
/// fails its check bits, or asks for a dictionary, and for no other reason.
pub proof fn law_zlib_header(data: Seq<u8>, limit: nat, verify: bool)
    requires
        data.len() >= 2,
    ensures
        ({
            let method = data[0] as int % 16;
            let window = data[0] as int / 16;
            let good = method == 8 && window <= 7 && (256 * data[0] + data[1]) % 31 == 0;
            &&& !good <==> stream::zlib(data, limit, verify) == Err::<Seq<u8>, InflateError>(
                InflateError::BadZlibHeader,
            )
            &&& good && data[1] as int / 32 % 2 == 1 <==> stream::zlib(data, limit, verify) == Err::<
                Seq<u8>,
                InflateError,
            >(InflateError::PresetDictionary)
        }),
{
    lemma_inflate_errors(data.skip(2), limit);
}

spec fn framing(error: InflateError) -> bool {
    error is BadZlibHeader || error is PresetDictionary || error is WrongChecksum
}

proof fn lemma_symbols_errors(
    litlen: Seq<u8>,
    dist: Seq<u8>,
    data: Seq<u8>,
    p: int,
    out: Seq<u8>,
    limit: nat,
)
    ensures
        stream::symbols(litlen, dist, data, p, out, limit) matches Err(error) ==> !framing(error),
    decreases limit - out.len(),
{
    if let Some(symbol) = code::decode(litlen, data, p) {
        let q = p + litlen[symbol];
        if symbol < 256 {
            if out.len() < limit {
                lemma_symbols_errors(litlen, dist, data, q, out.push(symbol as u8), limit);
            }
        } else if 256 < symbol <= 285 {
            if let Ok((length, distance, r)) = stream::back_reference(dist, data, q, symbol - 257) {
                stream::lemma_copy_match_len(out, distance, length);
                tables::lemma_len_range();
                if distance <= out.len() && out.len() + length <= limit {
                    lemma_symbols_errors(
                        litlen,
                        dist,
                        data,
                        r,
                        stream::copy_match(out, distance, length),
                        limit,
                    );
                }
            }
        }
    }
}

proof fn lemma_code_lengths_errors(
    clcl: Seq<u8>,
    data: Seq<u8>,
    p: int,
    lengths: Seq<u8>,
    total: nat,
)
    ensures
        stream::code_lengths(clcl, data, p, lengths, total) matches Err(error) ==> !framing(error),
    decreases total - lengths.len(),
{
    if lengths.len() < total {
        if let Some(symbol) = code::decode(clcl, data, p) {
            let q = p + clcl[symbol];
            if symbol < 16 {
                lemma_code_lengths_errors(clcl, data, q, lengths.push(symbol as u8), total);
            } else if !(symbol == 16 && lengths.len() == 0) {
                let (length, least, extra) = stream::repeat_rule(symbol, lengths);
                let n = least + bits::value(data, q, extra);
                if lengths.len() + n <= total {
                    lemma_code_lengths_errors(
                        clcl,
                        data,
                        q + extra,
                        stream::repeated(lengths, length, n),
                        total,
                    );
                }
            }
        }
    }
}

proof fn lemma_block_errors(data: Seq<u8>, p: int, out: Seq<u8>, limit: nat)
    ensures
        stream::block(data, p, out, limit) matches Err(error) ==> !framing(error),
{
    reveal(stream::block);
    let kind = bits::value(data, p, 2);
    if kind == 1 {
        lemma_symbols_errors(
            tables::FIXED_LITLEN_LENGTHS@,
            tables::FIXED_DIST_LENGTHS@,
            data,
            p + 2,
            out,
            limit,
        );
    } else if kind == 2 {
        let hclen = bits::value(data, p + 2 + 10, 4) + 4;
        let hlit = bits::value(data, p + 2, 5) + 257;
        let hdist = bits::value(data, p + 2 + 5, 5) + 1;
        let clcl = stream::clcl_lengths(data, p + 2 + 14, hclen);
        lemma_code_lengths_errors(
            clcl,
            data,
            p + 2 + 14 + 3 * hclen,
            Seq::empty(),
            hlit + hdist,
        );
        if let Ok((litlen, dist, q)) = stream::dynamic_codes(data, p + 2) {
            lemma_symbols_errors(litlen, dist, data, q, out, limit);
        }
    }
}

proof fn lemma_blocks_errors(data: Seq<u8>, p: int, out: Seq<u8>, limit: nat)
    ensures
        stream::blocks(data, p, out, limit) matches Err(error) ==> !framing(error),
    decreases
            (if p < 8 * data.len() {
                8 * data.len() - p
            } else {
                0
            }),
{
    if 0 <= p < 8 * data.len() {
        lemma_block_errors(data, p + 1, out, limit);
        stream::lemma_block_progress(data, p + 1, out, limit);
        if let Ok((grown, q)) = stream::block(data, p + 1, out, limit) {
            if bits::bit(data, p) != 1 {
                lemma_blocks_errors(data, q, grown, limit);
            }
        }
    }
}

/// Blocks are never refused for the framing around them.
proof fn lemma_inflate_errors(data: Seq<u8>, limit: nat)
    ensures
        stream::inflate(data, limit) matches Err(error) ==> !framing(error),
{
    lemma_blocks_errors(data, 0, Seq::empty(), limit);
}

} // verus!
