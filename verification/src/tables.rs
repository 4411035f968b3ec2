//! Static tables of the DEFLATE format.

use vstd::prelude::*;
use vstd::arithmetic::power2::*;
use crate::bits;
use crate::code;

verus! {

/// Base match length for literal/length symbols 257..=285.
pub const LEN_BASE: [u16; 29] = [
    3, 4, 5, 6, 7, 8, 9, 10, 11, 13, 15, 17, 19, 23, 27, 31, 35, 43, 51, 59, 67, 83, 99, 115, 131,
    163, 195, 227, 258,
];

/// Number of extra bits following literal/length symbols 257..=285.
pub const LEN_EXTRA: [u8; 29] = [
    0, 0, 0, 0, 0, 0, 0, 0, 1, 1, 1, 1, 2, 2, 2, 2, 3, 3, 3, 3, 4, 4, 4, 4, 5, 5, 5, 5, 0,
];

/// Base match distance for distance symbols 0..=29.
pub const DIST_BASE: [u16; 30] = [
    1, 2, 3, 4, 5, 7, 9, 13, 17, 25, 33, 49, 65, 97, 129, 193, 257, 385, 513, 769, 1025, 1537,
    2049, 3073, 4097, 6145, 8193, 12289, 16385, 24577,
];

/// Number of extra bits following distance symbols 0..=29.
pub const DIST_EXTRA: [u8; 30] = [
    0, 0, 0, 0, 1, 1, 2, 2, 3, 3, 4, 4, 5, 5, 6, 6, 7, 7, 8, 8, 9, 9, 10, 10, 11, 11, 12, 12, 13,
    13,
];

/// The order in which code length code lengths appear in a dynamic block header.
pub const CLCL_ORDER: [u8; 19] = [
    16, 17, 18, 0, 8, 7, 9, 6, 10, 5, 11, 4, 12, 3, 13, 2, 14, 1, 15,
];

/// Code lengths of the fixed literal/length Huffman code.
pub const FIXED_LITLEN_LENGTHS: [u8; 288] = [
    8, 8, 8, 8, 8, 8, 8, 8, 8, 8, 8, 8, 8, 8, 8, 8, 8, 8, 8, 8, 8, 8, 8, 8, 8, 8, 8, 8, 8, 8, 8,
    8, 8, 8, 8, 8, 8, 8, 8, 8, 8, 8, 8, 8, 8, 8, 8, 8, 8, 8, 8, 8, 8, 8, 8, 8, 8, 8, 8, 8, 8, 8,
    8, 8, 8, 8, 8, 8, 8, 8, 8, 8, 8, 8, 8, 8, 8, 8, 8, 8, 8, 8, 8, 8, 8, 8, 8, 8, 8, 8, 8, 8, 8,
    8, 8, 8, 8, 8, 8, 8, 8, 8, 8, 8, 8, 8, 8, 8, 8, 8, 8, 8, 8, 8, 8, 8, 8, 8, 8, 8, 8, 8, 8, 8,
    8, 8, 8, 8, 8, 8, 8, 8, 8, 8, 8, 8, 8, 8, 8, 8, 8, 8, 8, 8, 9, 9, 9, 9, 9, 9, 9, 9, 9, 9, 9,
    9, 9, 9, 9, 9, 9, 9, 9, 9, 9, 9, 9, 9, 9, 9, 9, 9, 9, 9, 9, 9, 9, 9, 9, 9, 9, 9, 9, 9, 9, 9,
    9, 9, 9, 9, 9, 9, 9, 9, 9, 9, 9, 9, 9, 9, 9, 9, 9, 9, 9, 9, 9, 9, 9, 9, 9, 9, 9, 9, 9, 9, 9,
    9, 9, 9, 9, 9, 9, 9, 9, 9, 9, 9, 9, 9, 9, 9, 9, 9, 9, 9, 9, 9, 9, 9, 9, 9, 9, 9, 9, 9, 9, 9,
    9, 9, 9, 9, 9, 9, 9, 9, 7, 7, 7, 7, 7, 7, 7, 7, 7, 7, 7, 7, 7, 7, 7, 7, 7, 7, 7, 7, 7, 7, 7,
    7, 8, 8, 8, 8, 8, 8, 8, 8,
];

/// Code lengths of the fixed distance Huffman code.
///
/// All 32 slots are five bits wide. Symbols 30 and 31 are part of the code space but may
/// never be emitted, so the decoder rejects them.
pub const FIXED_DIST_LENGTHS: [u8; 32] = [
    5, 5, 5, 5, 5, 5, 5, 5, 5, 5, 5, 5, 5, 5, 5, 5, 5, 5, 5, 5, 5, 5, 5, 5, 5, 5, 5, 5, 5, 5, 5,
    5,
];

/// How many match lengths share the symbol `257 + i`.
pub open spec fn len_span(i: int) -> nat {
    pow2(LEN_EXTRA@[i] as nat)
}

/// The greatest symbol from `i` down whose base is at most `length`.
pub open spec fn len_index_from(length: int, i: int) -> int
    decreases i,
{
    if i <= 0 || LEN_BASE@[i] <= length {
        i
    } else {
        len_index_from(length, i - 1)
    }
}

/// The literal/length symbol for a match length, counted from 257.
pub open spec fn len_index(length: int) -> int {
    len_index_from(length, 28)
}

/// How many distances share the symbol `i`.
pub open spec fn dist_span(i: int) -> nat {
    pow2(DIST_EXTRA@[i] as nat)
}

pub proof fn lemma_len_range()
    ensures
        forall|i: int| 0 <= i < 29 ==> 3 <= #[trigger] LEN_BASE@[i] <= 258,
        forall|i: int| 0 <= i < 29 ==> #[trigger] LEN_EXTRA@[i] <= 5,
        forall|i: int| 0 <= i < 28 ==> LEN_BASE@[i] < #[trigger] LEN_BASE@[i + 1] <= LEN_BASE@[i] + len_span(i),
        LEN_BASE@[28] == 258,
        LEN_BASE@[0] == 3,
        LEN_BASE@[27] == 227,
{
    bits::lemma_pow2_small();
}

pub proof fn lemma_dist_range()
    ensures
        forall|i: int| 0 <= i < 30 ==> 1 <= #[trigger] DIST_BASE@[i] <= 24577,
        forall|i: int| 0 <= i < 30 ==> #[trigger] DIST_EXTRA@[i] <= 13,
        forall|i: int|
            0 <= i < 29 ==> #[trigger] DIST_BASE@[i + 1] == DIST_BASE@[i] + dist_span(i),
        DIST_BASE@[29] + dist_span(29) == 32769,
        DIST_BASE@[0] == 1,
{
    bits::lemma_pow2_small();
}

/// Every code length symbol has exactly one place in the header order.
pub proof fn lemma_clcl_order()
    ensures
        forall|i: int| 0 <= i < 19 ==> 0 <= #[trigger] CLCL_ORDER@[i] < 19,
        forall|i: int, j: int|
            0 <= i < j < 19 ==> #[trigger] CLCL_ORDER@[i] != #[trigger] CLCL_ORDER@[j],
{
}

/// Where a code length symbol stands in the header order.
pub open spec fn clcl_place(symbol: int) -> int {
    seq![3int, 17, 15, 13, 11, 9, 7, 5, 4, 6, 8, 10, 12, 14, 16, 18, 0, 1, 2][symbol]
}

pub proof fn lemma_clcl_place(symbol: int)
    requires
        0 <= symbol < 19,
    ensures
        0 <= clcl_place(symbol) < 19,
        CLCL_ORDER@[clcl_place(symbol)] == symbol,
{
}

/// How often each length occurs among the first `i` fixed literal/length codewords.
proof fn lemma_fixed_litlen_counts(i: int)
    requires
        0 <= i <= 288,
    ensures
        ({
            let part = FIXED_LITLEN_LENGTHS@.take(i);
            &&& code::count(part, 7) == (if i < 256 {
                0
            } else if i < 280 {
                i - 256
            } else {
                24
            })
            &&& code::count(part, 8) == (if i < 144 {
                i
            } else if i < 280 {
                144
            } else {
                i - 136
            })
            &&& code::count(part, 9) == (if i < 144 {
                0
            } else if i < 256 {
                i - 144
            } else {
                112
            })
            &&& forall|l: int| l != 7 && l != 8 && l != 9 ==> #[trigger] code::count(part, l) == 0
        }),
    decreases i,
{
    let all = FIXED_LITLEN_LENGTHS@;
    if i > 0 {
        let k = i - 1;
        lemma_fixed_litlen_counts(k);
        lemma_fixed_litlen_values(k);
        code::lemma_count_step(all, k, 7);
        code::lemma_count_step(all, k, 8);
        code::lemma_count_step(all, k, 9);
        assert forall|l: int| l != 7 && l != 8 && l != 9 implies #[trigger] code::count(all.take(i), l)
            == 0 by {
            code::lemma_count_step(all, k, l);
        }
    }
}

pub proof fn lemma_fixed_litlen_values(i: int)
    requires
        0 <= i < 288,
    ensures
        FIXED_LITLEN_LENGTHS@[i] == (if i < 144 {
            8u8
        } else if i < 256 {
            9
        } else if i < 280 {
            7
        } else {
            8u8
        }),
{
}

/// The fixed literal/length code is complete.
pub proof fn lemma_fixed_litlen()
    ensures
        code::complete(FIXED_LITLEN_LENGTHS@),
{
    let all = FIXED_LITLEN_LENGTHS@;
    assert forall|i: int| 0 <= i < all.len() implies #[trigger] all[i] <= 15 by {
        lemma_fixed_litlen_values(i);
    }
    lemma_fixed_litlen_counts(288);
    assert(all.take(288) =~= all);
    assert(code::used(all, 1) == 0);
    assert(code::used(all, 2) == 0);
    assert(code::used(all, 3) == 0);
    assert(code::used(all, 4) == 0);
    assert(code::used(all, 5) == 0);
    assert(code::used(all, 6) == 0);
    assert(code::used(all, 7) == 24);
    assert(code::used(all, 8) == 200);
    assert(code::used(all, 9) == 512);
    assert(code::used(all, 10) == 1024);
    assert(code::used(all, 11) == 2048);
    assert(code::used(all, 12) == 4096);
    assert(code::used(all, 13) == 8192);
    assert(code::used(all, 14) == 16384);
    assert(code::used(all, 15) == 32768);
    bits::lemma_pow2_small();
}

proof fn lemma_fixed_dist_counts(i: int)
    requires
        0 <= i <= 32,
    ensures
        code::count(FIXED_DIST_LENGTHS@.take(i), 5) == i,
        forall|l: int| l != 5 ==> #[trigger] code::count(FIXED_DIST_LENGTHS@.take(i), l) == 0,
    decreases i,
{
    let all = FIXED_DIST_LENGTHS@;
    if i > 0 {
        lemma_fixed_dist_counts(i - 1);
        code::lemma_count_step(all, i - 1, 5);
        assert forall|l: int| l != 5 implies #[trigger] code::count(all.take(i), l) == 0 by {
            code::lemma_count_step(all, i - 1, l);
        }
    }
}

/// The fixed distance code is complete.
pub proof fn lemma_fixed_dist()
    ensures
        code::complete(FIXED_DIST_LENGTHS@),
{
    let all = FIXED_DIST_LENGTHS@;
    lemma_fixed_dist_counts(32);
    assert(all.take(32) =~= all);
    assert(code::used(all, 1) == 0);
    assert(code::used(all, 2) == 0);
    assert(code::used(all, 3) == 0);
    assert(code::used(all, 4) == 0);
    assert(code::used(all, 5) == 32);
    assert(code::used(all, 6) == 64);
    assert(code::used(all, 7) == 128);
    assert(code::used(all, 8) == 256);
    assert(code::used(all, 9) == 512);
    assert(code::used(all, 10) == 1024);
    assert(code::used(all, 11) == 2048);
    assert(code::used(all, 12) == 4096);
    assert(code::used(all, 13) == 8192);
    assert(code::used(all, 14) == 16384);
    assert(code::used(all, 15) == 32768);
    bits::lemma_pow2_small();
}

/// Returns the literal/length symbol for a match length in `3..=258`, counted from 257.
pub fn len_symbol(length: u16) -> (symbol: u8)
    requires
        3 <= length <= 258,
    ensures
        symbol < 29,
        LEN_BASE@[symbol as int] <= length < LEN_BASE@[symbol as int] + len_span(symbol as int),
        symbol == len_index(length as int),
{
    let mut symbol: usize = 28;
    proof {
        lemma_len_range();
        bits::lemma_pow2_small();
    }
    while LEN_BASE[symbol] > length
        invariant
            symbol < 29,
            3 <= length <= 258,
            symbol < 28 ==> length < LEN_BASE@[symbol + 1],
            len_index(length as int) == len_index_from(length as int, symbol as int),
        decreases symbol,
    {
        proof {
            lemma_len_range();
        }
        symbol = symbol - 1;
    }
    proof {
        if symbol < 28 {
            assert(LEN_BASE@[symbol + 1] <= LEN_BASE@[symbol as int] + len_span(symbol as int));
        }
    }
    symbol as u8
}

/// A match length lies among those of its symbol.
pub proof fn lemma_len_index(length: int)
    requires
        3 <= length <= 258,
    ensures
        0 <= len_index(length) < 29,
        LEN_BASE@[len_index(length)] <= length < LEN_BASE@[len_index(length)] + len_span(
            len_index(length),
        ),
{
    lemma_len_index_from(length, 28);
}

proof fn lemma_len_index_from(length: int, i: int)
    requires
        3 <= length <= 258,
        0 <= i <= 28,
        i < 28 ==> length < LEN_BASE@[i + 1],
    ensures
        0 <= len_index_from(length, i) <= i,
        LEN_BASE@[len_index_from(length, i)] <= length < LEN_BASE@[len_index_from(length, i)]
            + len_span(len_index_from(length, i)),
    decreases i,
{
    lemma_len_range();
    bits::lemma_pow2_small();
    if i > 0 && LEN_BASE@[i] > length {
        lemma_len_index_from(length, i - 1);
    } else if i < 28 {
        assert(LEN_BASE@[i + 1] <= LEN_BASE@[i] + len_span(i));
    }
}

/// Returns the distance symbol for a match distance in `1..=32768`.
pub fn dist_symbol(distance: u16) -> (symbol: u8)
    requires
        1 <= distance <= 32768,
    ensures
        symbol < 30,
        DIST_BASE@[symbol as int] <= distance < DIST_BASE@[symbol as int] + dist_span(symbol as int),
{
    let mut symbol: usize = 29;
    proof {
        lemma_dist_range();
    }
    while DIST_BASE[symbol] > distance
        invariant
            symbol < 30,
            1 <= distance <= 32768,
            distance < DIST_BASE@[symbol as int] + dist_span(symbol as int),
        decreases symbol,
    {
        proof {
            lemma_dist_range();
            if symbol > 0 {
                assert(DIST_BASE@[(symbol - 1) + 1] == DIST_BASE@[symbol - 1] + dist_span(symbol - 1));
            }
        }
        symbol = symbol - 1;
    }
    symbol as u8
}

/// Every distance belongs to exactly one symbol.
pub proof fn law_dist_symbol_unique(distance: int, a: int, b: int)
    requires
        0 <= a < 30,
        0 <= b < 30,
        DIST_BASE@[a] <= distance < DIST_BASE@[a] + dist_span(a),
        DIST_BASE@[b] <= distance < DIST_BASE@[b] + dist_span(b),
    ensures
        a == b,
{
    if a < b {
        lemma_dist_gap(a, b);
    } else if b < a {
        lemma_dist_gap(b, a);
    }
}

/// The distances of a later symbol lie beyond those of an earlier one.
proof fn lemma_dist_gap(a: int, b: int)
    requires
        0 <= a < b < 30,
    ensures
        DIST_BASE@[a] + dist_span(a) <= DIST_BASE@[b],
    decreases b - a,
{
    lemma_dist_range();
    assert(DIST_BASE@[a + 1] == DIST_BASE@[a] + dist_span(a));
    if a + 1 < b {
        lemma_dist_gap(a + 1, b);
    }
}

} // verus!
