//! Canonical prefix codes: what a sequence of code lengths means.
//!
//! DEFLATE describes a code by the length of every symbol's codeword alone. Codewords of one
//! length are consecutive numbers in symbol order, and each length starts where the one
//! before it left off. A length of zero marks a symbol without a codeword.

use vstd::prelude::*;
use vstd::arithmetic::power2::*;
use vstd::arithmetic::div_mod::*;
use crate::bits;

verus! {

/// Longest codeword that DEFLATE allows.
pub open spec fn max_bits() -> nat {
    15
}

/// Number of symbols whose codeword has length `l`.
pub open spec fn count(lengths: Seq<u8>, l: int) -> nat
    decreases lengths.len(),
{
    if lengths.len() == 0 {
        0
    } else {
        count(lengths.drop_last(), l) + if lengths.last() == l {
            1nat
        } else {
            0nat
        }
    }
}

/// The codeword of the first symbol of length `l`.
pub open spec fn first_code(lengths: Seq<u8>, l: nat) -> nat
    decreases l, 0int,
{
    if l <= 1 {
        0
    } else {
        2 * used(lengths, (l - 1) as nat)
    }
}

/// How much of the `l`-bit code space the codewords of length at most `l` take up.
pub open spec fn used(lengths: Seq<u8>, l: nat) -> nat
    decreases l, 1int,
{
    first_code(lengths, l) + count(lengths, l as int)
}

/// The codeword of a symbol, as the number that its bits spell in stream order.
pub open spec fn codeword(lengths: Seq<u8>, symbol: int) -> nat {
    first_code(lengths, lengths[symbol] as nat) + count(
        lengths.take(symbol),
        lengths[symbol] as int,
    )
}

/// Whether no length exceeds what the format allows.
pub open spec fn in_range(lengths: Seq<u8>) -> bool {
    forall|i: int| 0 <= i < lengths.len() ==> #[trigger] lengths[i] <= 15
}

/// Whether the codewords fit the code space.
pub open spec fn fits(lengths: Seq<u8>) -> bool {
    in_range(lengths) && used(lengths, max_bits()) <= pow2(max_bits())
}

/// Whether the codewords fill the code space exactly: the tree has no missing branch.
pub open spec fn complete(lengths: Seq<u8>) -> bool {
    in_range(lengths) && used(lengths, max_bits()) == pow2(max_bits())
}

/// Whether no symbol but `s` has a codeword.
pub open spec fn only_at(lengths: Seq<u8>, s: int) -> bool {
    forall|t: int| 0 <= t < lengths.len() && t != s ==> #[trigger] lengths[t] == 0
}

/// Whether at most one symbol has a codeword.
pub open spec fn degenerate(lengths: Seq<u8>) -> bool {
    exists|s: int| #[trigger] only_at(lengths, s)
}

/// The codeword of a symbol as the bit writer takes it, or zero where there is none.
pub open spec fn written(lengths: Seq<u8>, symbol: int) -> nat {
    if lengths[symbol] > 0 {
        bits::reversed(lengths[symbol] as nat, codeword(lengths, symbol))
    } else {
        0
    }
}

/// Whether `symbol` has a codeword.
pub open spec fn has_code(lengths: Seq<u8>, symbol: int) -> bool {
    0 <= symbol < lengths.len() && lengths[symbol] > 0
}

/// Whether the codeword of `symbol` stands at position `p`.
pub open spec fn decodes(lengths: Seq<u8>, data: Seq<u8>, p: int, symbol: int) -> bool {
    has_code(lengths, symbol) && bits::code_value(data, p, lengths[symbol] as nat) == codeword(
        lengths,
        symbol,
    )
}

/// The symbol whose codeword stands at position `p`.
#[verifier::opaque]
pub open spec fn decode(lengths: Seq<u8>, data: Seq<u8>, p: int) -> Option<int> {
    if exists|symbol: int| decodes(lengths, data, p, symbol) {
        Some(choose|symbol: int| decodes(lengths, data, p, symbol))
    } else {
        None
    }
}

/// Whether the low bits of `window` are the codeword of `symbol` in stream order.
pub open spec fn hit(lengths: Seq<u8>, symbol: int, window: nat) -> bool {
    has_code(lengths, symbol) && window % pow2(lengths[symbol] as nat) == bits::reversed(
        lengths[symbol] as nat,
        codeword(lengths, symbol),
    )
}

// ---------------------------------------------------------------------------------------
// Counting
// ---------------------------------------------------------------------------------------

pub proof fn lemma_count_step(lengths: Seq<u8>, i: int, l: int)
    requires
        0 <= i < lengths.len(),
    ensures
        count(lengths.take(i + 1), l) == count(lengths.take(i), l) + if lengths[i] == l {
            1nat
        } else {
            0nat
        },
{
    assert(lengths.take(i + 1).drop_last() =~= lengths.take(i));
}

pub proof fn lemma_count_monotonic(lengths: Seq<u8>, i: int, j: int, l: int)
    requires
        0 <= i <= j <= lengths.len(),
    ensures
        count(lengths.take(i), l) <= count(lengths.take(j), l) <= count(lengths, l),
        count(lengths.take(j), l) <= j,
    decreases j,
{
    lemma_count_rest(lengths, j, l);
    lemma_count_bound(lengths.take(j), l);
    if i < j {
        lemma_count_step(lengths, j - 1, l);
        lemma_count_monotonic(lengths, i, j - 1, l);
    }
}

proof fn lemma_count_rest(lengths: Seq<u8>, j: int, l: int)
    requires
        0 <= j <= lengths.len(),
    ensures
        count(lengths.take(j), l) <= count(lengths, l),
    decreases lengths.len() - j,
{
    if j < lengths.len() {
        lemma_count_step(lengths, j, l);
        lemma_count_rest(lengths, j + 1, l);
    } else {
        assert(lengths.take(j) =~= lengths);
    }
}

pub proof fn lemma_count_bound(lengths: Seq<u8>, l: int)
    ensures
        count(lengths, l) <= lengths.len(),
    decreases lengths.len(),
{
    if lengths.len() > 0 {
        lemma_count_bound(lengths.drop_last(), l);
    }
}

/// Symbols of one length are told apart by how many come before them.
proof fn lemma_rank_unique(lengths: Seq<u8>, a: int, b: int)
    requires
        0 <= a < b < lengths.len(),
        lengths[a] == lengths[b],
    ensures
        count(lengths.take(a), lengths[a] as int) < count(lengths.take(b), lengths[b] as int),
{
    lemma_count_step(lengths, a, lengths[a] as int);
    lemma_count_monotonic(lengths, a + 1, b, lengths[a] as int);
}

/// Every rank below the count belongs to a symbol.
proof fn lemma_rank_exists(lengths: Seq<u8>, l: int, k: nat) -> (symbol: int)
    requires
        k < count(lengths, l),
    ensures
        0 <= symbol < lengths.len(),
        lengths[symbol] == l,
        count(lengths.take(symbol), l) == k,
    decreases lengths.len(),
{
    let m = lengths.len() - 1;
    let front = lengths.drop_last();
    assert(lengths.take(m) =~= front);
    if k < count(front, l) {
        let symbol = lemma_rank_exists(front, l, k);
        assert(front.take(symbol) =~= lengths.take(symbol));
        symbol
    } else {
        m
    }
}

// ---------------------------------------------------------------------------------------
// The code space
// ---------------------------------------------------------------------------------------

/// A lone codeword is made of zeros and leaves code space free.
pub proof fn lemma_lone(lengths: Seq<u8>, s: int)
    requires
        in_range(lengths),
        only_at(lengths, s),
    ensures
        fits(lengths),
        !complete(lengths),
        has_code(lengths, s) ==> codeword(lengths, s) == 0 && written(lengths, s) == 0,
{
    bits::lemma_pow2_small();
    if has_code(lengths, s) {
        let n = lengths[s] as int;
        assert(forall|i: int| 0 <= i < s ==> lengths.take(s)[i] == lengths[i]);
        lemma_count_none(lengths.take(s), n);
        lemma_count_step(lengths, s, n);
        lemma_count_after(lengths, s + 1, n);
        assert(count(lengths, n) == 1);
        assert forall|l: int| 1 <= l <= 15 && l != n implies #[trigger] count(lengths, l) == 0 by {
            lemma_count_none(lengths, l);
        }
        lemma_lone_used(lengths, n as nat, 15);
        bits::lemma_pow2_monotonic((15 - n) as nat, 14);
        if n > 1 {
            lemma_lone_used(lengths, n as nat, (n - 1) as nat);
        }
        lemma_reversed_zero(n as nat);
    } else {
        assert forall|k: int| 1 <= k <= 15 implies count(lengths, k) == 0 by {
            lemma_count_none(lengths, k);
        }
        lemma_used_none(lengths, 15);
    }
}

proof fn lemma_reversed_zero(n: nat)
    ensures
        bits::reversed(n, 0) == 0,
    decreases n,
{
    if n > 0 {
        lemma_reversed_zero((n - 1) as nat);
        assert(pow2((n - 1) as nat) * 0 == 0) by (nonlinear_arith);
    }
}

proof fn lemma_lone_used(lengths: Seq<u8>, n: nat, l: nat)
    requires
        1 <= l <= 15,
        1 <= n <= 15,
        count(lengths, n as int) == 1,
        forall|k: int| 1 <= k <= 15 && k != n ==> #[trigger] count(lengths, k) == 0,
    ensures
        used(lengths, l) == (if l < n {
            0
        } else {
            pow2((l - n) as nat)
        }),
    decreases l,
{
    bits::lemma_pow2_small();
    if l > 1 {
        lemma_lone_used(lengths, n, (l - 1) as nat);
        if l > n {
            bits::lemma_pow2_step((l - 1 - n) as nat);
        }
    }
}

/// Trailing symbols without a codeword change nothing about the others.
pub proof fn lemma_tail_unused(lengths: Seq<u8>, m: int)
    requires
        0 <= m <= lengths.len(),
        forall|t: int| m <= t < lengths.len() ==> #[trigger] lengths[t] == 0,
    ensures
        forall|l: int| l >= 1 ==> #[trigger] count(lengths, l) == count(lengths.take(m), l),
        complete(lengths) <==> complete(lengths.take(m)),
        fits(lengths) <==> fits(lengths.take(m)),
        forall|s: int|
            0 <= s < m && lengths[s] > 0 ==> #[trigger] codeword(lengths, s) == codeword(
                lengths.take(m),
                s,
            ),
{
    let part = lengths.take(m);
    assert forall|l: int| l >= 1 implies #[trigger] count(lengths, l) == count(part, l) by {
        lemma_count_after(lengths, m, l);
    }
    lemma_used_same(lengths, part, 15);
    if in_range(part) {
        assert forall|i: int| 0 <= i < lengths.len() implies #[trigger] lengths[i] <= 15 by {
            if i < m {
                assert(part[i] <= 15);
            }
        }
    }
    if in_range(lengths) {
        assert forall|i: int| 0 <= i < part.len() implies #[trigger] part[i] <= 15 by {
            assert(lengths[i] <= 15);
        }
    }
    assert forall|s: int| 0 <= s < m && lengths[s] > 0 implies #[trigger] codeword(lengths, s)
        == codeword(part, s) by {
        assert(part.take(s) =~= lengths.take(s));
        lemma_used_same(lengths, part, lengths[s] as nat);
    }
}

proof fn lemma_used_same(a: Seq<u8>, b: Seq<u8>, l: nat)
    requires
        1 <= l,
        forall|k: int| k >= 1 ==> #[trigger] count(a, k) == count(b, k),
    ensures
        used(a, l) == used(b, l),
        first_code(a, l) == first_code(b, l),
    decreases l,
{
    if l > 1 {
        lemma_used_same(a, b, (l - 1) as nat);
    }
}

/// Symbols of other lengths do not change a count.
proof fn lemma_count_after(lengths: Seq<u8>, j: int, l: int)
    requires
        0 <= j <= lengths.len(),
        forall|t: int| j <= t < lengths.len() ==> lengths[t] != l,
    ensures
        count(lengths, l) == count(lengths.take(j), l),
    decreases lengths.len() - j,
{
    if j < lengths.len() {
        lemma_count_step(lengths, j, l);
        lemma_count_after(lengths, j + 1, l);
    } else {
        assert(lengths.take(j) =~= lengths);
    }
}

/// Longer codewords start beyond everything that shorter ones have taken.
pub proof fn lemma_used_grows(lengths: Seq<u8>, l: nat, m: nat)
    requires
        1 <= l <= m,
    ensures
        used(lengths, m) >= pow2((m - l) as nat) * used(lengths, l),
        l < m ==> first_code(lengths, m) >= pow2((m - l) as nat) * used(lengths, l),
    decreases m - l,
{
    bits::lemma_pow2_zero(used(lengths, l));
    if l < m {
        let k = (m - 1) as nat;
        lemma_used_grows(lengths, l, k);
        bits::lemma_pow2_step((k - l) as nat);
        let e = pow2((k - l) as nat);
        let u = used(lengths, l);
        assert(2 * (e * u) == 2 * e * u) by (nonlinear_arith);
        assert((k - l) as nat + 1 == (m - l) as nat);
    }
}

/// However far oversubscribed, the code space taken is bounded by the alphabet.
pub proof fn lemma_used_size(lengths: Seq<u8>, l: nat)
    requires
        1 <= l <= 15,
    ensures
        used(lengths, l) <= lengths.len() * (pow2(l) - 1),
        1 <= pow2(l) <= 32768,
    decreases l,
{
    bits::lemma_pow2_small();
    bits::lemma_pow2_monotonic(l, 15);
    lemma_count_bound(lengths, l as int);
    let n = lengths.len();
    if l > 1 {
        let k = (l - 1) as nat;
        lemma_used_size(lengths, k);
        bits::lemma_pow2_step(k);
        assert(2 * (n * (pow2(k) - 1)) + n == n * (2 * pow2(k) - 1)) by (nonlinear_arith);
    } else {
        assert(n * (2 - 1) == n);
    }
}

/// Without codewords no code space is taken, and only then.
pub proof fn lemma_used_none(lengths: Seq<u8>, l: nat)
    requires
        1 <= l,
    ensures
        used(lengths, l) == 0 <==> forall|k: int| 1 <= k <= l ==> count(lengths, k) == 0,
    decreases l,
{
    if l > 1 {
        lemma_used_none(lengths, (l - 1) as nat);
        if used(lengths, (l - 1) as nat) == 0 && count(lengths, l as int) == 0 {
            assert forall|k: int| 1 <= k <= l implies count(lengths, k) == 0 by {
                if k < l {
                    assert(1 <= k <= (l - 1) as nat);
                }
            }
        }
    }
}

/// No symbol of length `l` is counted exactly when none has it.
pub proof fn lemma_count_none(lengths: Seq<u8>, l: int)
    ensures
        count(lengths, l) == 0 <==> forall|i: int| 0 <= i < lengths.len() ==> lengths[i] != l,
    decreases lengths.len(),
{
    if lengths.len() > 0 {
        lemma_count_none(lengths.drop_last(), l);
        if count(lengths, l) == 0 {
            assert forall|i: int| 0 <= i < lengths.len() implies lengths[i] != l by {
                if i < lengths.len() - 1 {
                    assert(lengths.drop_last()[i] != l);
                }
            }
        } else if lengths.last() != l {
            let i = choose|i: int| 0 <= i < lengths.len() - 1 && lengths.drop_last()[i] == l;
            assert(lengths[i] == l);
        }
    }
}

pub proof fn lemma_used_bound(lengths: Seq<u8>, l: nat)
    requires
        fits(lengths),
        1 <= l <= 15,
    ensures
        used(lengths, l) <= pow2(l),
{
    lemma_used_grows(lengths, l, 15);
    bits::lemma_pow2_monotonic(l, 15);
    let e = pow2((15 - l) as nat);
    bits::lemma_pow2_step((15 - l) as nat);
    assert(used(lengths, l) <= pow2(l)) by (nonlinear_arith)
        requires
            e * used(lengths, l) <= pow2(l) * e,
            e > 0,
    ;
}

pub proof fn lemma_codeword_bound(lengths: Seq<u8>, symbol: int)
    requires
        fits(lengths),
        has_code(lengths, symbol),
    ensures
        codeword(lengths, symbol) < used(lengths, lengths[symbol] as nat),
        codeword(lengths, symbol) < pow2(lengths[symbol] as nat),
        1 <= lengths[symbol] <= 15,
{
    let l = lengths[symbol] as int;
    lemma_count_step(lengths, symbol, l);
    lemma_count_monotonic(lengths, symbol + 1, symbol + 1, l);
    lemma_used_bound(lengths, l as nat);
}

/// No codeword is the beginning of another.
pub proof fn lemma_prefix_free(lengths: Seq<u8>, a: int, b: int)
    requires
        has_code(lengths, a),
        has_code(lengths, b),
        lengths[a] <= lengths[b],
        codeword(lengths, b) / pow2((lengths[b] - lengths[a]) as nat) == codeword(lengths, a),
    ensures
        a == b,
{
    let la = lengths[a] as nat;
    let lb = lengths[b] as nat;
    bits::lemma_pow2_zero(codeword(lengths, b));
    if la == lb {
        if a < b {
            lemma_rank_unique(lengths, a, b);
        } else if b < a {
            lemma_rank_unique(lengths, b, a);
        }
    } else {
        lemma_used_grows(lengths, la, lb);
        let e = pow2((lb - la) as nat);
        lemma_pow2_pos((lb - la) as nat);
        let u = used(lengths, la);
        lemma_count_step(lengths, a, la as int);
        lemma_count_monotonic(lengths, a + 1, a + 1, la as int);
        assert(codeword(lengths, a) < u);
        lemma_div_multiples_vanish(u as int, e as int);
        lemma_div_is_ordered((e * u) as int, codeword(lengths, b) as int, e as int);
        assert(false);
    }
}

/// In a complete code every bit pattern begins with some codeword.
proof fn lemma_complete_covers(lengths: Seq<u8>, v: nat, l: nat) -> (symbol: int)
    requires
        in_range(lengths),
        1 <= l <= 15,
        v < used(lengths, l),
    ensures
        has_code(lengths, symbol),
        lengths[symbol] <= l,
        v / pow2((l - lengths[symbol]) as nat) == codeword(lengths, symbol),
    decreases l,
{
    bits::lemma_pow2_zero(v);
    if v >= first_code(lengths, l) {
        let symbol = lemma_rank_exists(lengths, l as int, (v - first_code(lengths, l)) as nat);
        symbol
    } else {
        let k = (l - 1) as nat;
        let symbol = lemma_complete_covers(lengths, v / 2, k);
        let d = (k - lengths[symbol]) as nat;
        bits::lemma_pow2_step(d);
        lemma_div_denominator(v as int, 2, pow2(d) as int);
        symbol
    }
}

// ---------------------------------------------------------------------------------------
// Codewords in a stream
// ---------------------------------------------------------------------------------------

/// A shorter codeword is the leading part of a longer one.
pub proof fn lemma_code_value_prefix(data: Seq<u8>, p: int, a: nat, b: nat)
    ensures
        bits::code_value(data, p, a + b) / pow2(b) == bits::code_value(data, p, a),
    decreases b,
{
    bits::lemma_pow2_zero(bits::code_value(data, p, a));
    if b > 0 {
        let m = (b - 1) as nat;
        lemma_code_value_prefix(data, p, a, m);
        bits::lemma_pow2_step(m);
        let c = bits::code_value(data, p, a + m);
        let x = bits::bit(data, p + (a + m));
        bits::lemma_bit_bound(data, p + (a + m));
        assert((a + b - 1) as nat == a + m);
        assert(bits::code_value(data, p, a + b) == 2 * c + x);
        lemma_div_denominator((2 * c + x) as int, 2, pow2(m) as int);
    }
}

/// At most one codeword stands at a position.
pub proof fn lemma_decodes_unique(lengths: Seq<u8>, data: Seq<u8>, p: int, a: int, b: int)
    requires
        decodes(lengths, data, p, a),
        decodes(lengths, data, p, b),
    ensures
        a == b,
{
    if lengths[a] <= lengths[b] {
        lemma_code_value_prefix(data, p, lengths[a] as nat, (lengths[b] - lengths[a]) as nat);
        lemma_prefix_free(lengths, a, b);
    } else {
        lemma_code_value_prefix(data, p, lengths[b] as nat, (lengths[a] - lengths[b]) as nat);
        lemma_prefix_free(lengths, b, a);
    }
}

pub proof fn lemma_decode_is(lengths: Seq<u8>, data: Seq<u8>, p: int, symbol: int)
    requires
        decodes(lengths, data, p, symbol),
    ensures
        decode(lengths, data, p) == Some(symbol),
{
    reveal(decode);
    let other = choose|s: int| decodes(lengths, data, p, s);
    lemma_decodes_unique(lengths, data, p, symbol, other);
}

/// A decoded symbol's codeword stands at the position.
pub proof fn lemma_decode_some(lengths: Seq<u8>, data: Seq<u8>, p: int)
    ensures
        decode(lengths, data, p) matches Some(symbol) ==> decodes(lengths, data, p, symbol),
        decode(lengths, data, p) is None ==> forall|s: int| !decodes(lengths, data, p, s),
{
    reveal(decode);
}

/// A complete code always decodes to something.
pub proof fn law_complete_code_decodes(lengths: Seq<u8>, data: Seq<u8>, p: int)
    requires
        complete(lengths),
    ensures
        decode(lengths, data, p) is Some,
        decodes(lengths, data, p, decode(lengths, data, p)->0),
{
    bits::lemma_value_is_reversed_code(data, p, 15);
    let v = bits::code_value(data, p, 15);
    let symbol = lemma_complete_covers(lengths, v, 15);
    lemma_code_value_prefix(data, p, lengths[symbol] as nat, (15 - lengths[symbol]) as nat);
    lemma_decode_is(lengths, data, p, symbol);
}

/// Matching a window of stream bits is decoding.
pub proof fn lemma_hit_decodes(
    lengths: Seq<u8>,
    data: Seq<u8>,
    p: int,
    n: nat,
    symbol: int,
)
    requires
        fits(lengths),
        has_code(lengths, symbol),
        lengths[symbol] <= n,
    ensures
        hit(lengths, symbol, bits::value(data, p, n)) <==> decodes(lengths, data, p, symbol),
{
    let l = lengths[symbol] as nat;
    lemma_codeword_bound(lengths, symbol);
    bits::lemma_value_split(data, p, l, (n - l) as nat);
    bits::lemma_code_match(data, p, l, codeword(lengths, symbol));
}

/// A stretch of data whose first fifteen bits are a given window.
proof fn lemma_window_data(w: nat) -> (data: Seq<u8>)
    requires
        w < pow2(15),
    ensures
        bits::value(data, 0, 15) == w,
{
    bits::lemma_pow2_small();
    let lo = (w % 256) as u8;
    let hi = (w / 256) as u8;
    let data = seq![lo, hi];
    bits::lemma_value_byte(data, 0);
    bits::lemma_value_byte(data, 1);
    bits::lemma_value_split(data, 0, 8, 8);
    assert(bits::value(data, 0, 16) == w);
    bits::lemma_value_split(data, 0, 15, 1);
    lemma_small_mod(w, pow2(15));
    data
}

/// At most one codeword matches a window.
pub proof fn lemma_hit_unique(lengths: Seq<u8>, w: nat, a: int, b: int)
    requires
        fits(lengths),
        hit(lengths, a, w),
        hit(lengths, b, w),
    ensures
        a == b,
{
    lemma_codeword_bound(lengths, a);
    lemma_codeword_bound(lengths, b);
    lemma_pow2_pos(15);
    let v = w % pow2(15);
    lemma_hit_low(lengths, a, w, 15);
    lemma_hit_low(lengths, b, w, 15);
    let data = lemma_window_data(v);
    lemma_hit_decodes(lengths, data, 0, 15, a);
    lemma_hit_decodes(lengths, data, 0, 15, b);
    lemma_decodes_unique(lengths, data, 0, a, b);
}

/// Only as many low bits of a window matter as the codeword has.
pub proof fn lemma_hit_low(lengths: Seq<u8>, symbol: int, w: nat, n: nat)
    requires
        has_code(lengths, symbol),
        lengths[symbol] <= n,
    ensures
        hit(lengths, symbol, w) <==> hit(lengths, symbol, w % pow2(n)),
        pow2(n) > 0,
{
    let l = lengths[symbol] as nat;
    bits::lemma_pow2_monotonic(l, n);
    lemma_pow2_pos((n - l) as nat);
    lemma_pow2_pos(n);
    bits::lemma_mod_of_mod(w, pow2(l), pow2((n - l) as nat));
}

/// The bits of a codeword decode to its symbol.
pub proof fn lemma_written_code(lengths: Seq<u8>, data: Seq<u8>, p: int, symbol: int)
    requires
        fits(lengths),
        has_code(lengths, symbol),
        bits::holds(
            data,
            p,
            bits::lsb(
                bits::reversed(lengths[symbol] as nat, codeword(lengths, symbol)),
                lengths[symbol] as nat,
            ),
        ),
    ensures
        decodes(lengths, data, p, symbol),
        decode(lengths, data, p) == Some(symbol),
{
    let l = lengths[symbol] as nat;
    let c = codeword(lengths, symbol);
    lemma_codeword_bound(lengths, symbol);
    bits::lemma_reversed_bound(l, c);
    bits::lemma_holds_value(data, p, bits::reversed(l, c), l);
    bits::lemma_code_match(data, p, l, c);
    lemma_decode_is(lengths, data, p, symbol);
}

// ---------------------------------------------------------------------------------------
// Canonical codes
// ---------------------------------------------------------------------------------------

/// Symbols of other lengths do not count.
proof fn lemma_count_gap(lengths: Seq<u8>, i: int, j: int, l: int)
    requires
        0 <= i <= j <= lengths.len(),
        forall|k: int| i <= k < j ==> #[trigger] lengths[k] != l,
    ensures
        count(lengths.take(j), l) == count(lengths.take(i), l),
    decreases j - i,
{
    if i < j {
        lemma_count_gap(lengths, i, j - 1, l);
        lemma_count_step(lengths, j - 1, l);
    }
}

/// Where no codeword has a length above `a` up to `b`, the code space only grows.
proof fn lemma_used_gap(lengths: Seq<u8>, a: nat, b: nat)
    requires
        1 <= a <= b,
        forall|k: int| 0 <= k < lengths.len() ==> !(a < #[trigger] lengths[k] <= b),
    ensures
        used(lengths, b) == used(lengths, a) * pow2((b - a) as nat),
    decreases b - a,
{
    bits::lemma_pow2_small();
    if a < b {
        let m = (b - 1) as nat;
        lemma_used_gap(lengths, a, m);
        assert(count(lengths, b as int) == 0) by {
            lemma_count_gap(lengths, 0, lengths.len() as int, b as int);
            assert(lengths.take(lengths.len() as int) =~= lengths);
            assert(lengths.take(0) =~= Seq::empty());
        }
        bits::lemma_pow2_step((m - a) as nat);
        assert((m - a + 1) as nat == (b - a) as nat);
        let u = used(lengths, a);
        assert(2 * (u * pow2((m - a) as nat)) == u * (2 * pow2((m - a) as nat)))
            by (nonlinear_arith);
    } else {
        assert(used(lengths, a) * 1 == used(lengths, a));
    }
}

/// Codewords go up by one from symbol to symbol of the same length. From the last symbol of a
/// length to the first of the next greater one in use, they go up by one and get as many zeros
/// behind them as they are longer. The first codeword is all zeros.
pub proof fn law_canonical_codes(lengths: Seq<u8>, a: int, b: int)
    requires
        has_code(lengths, a),
        has_code(lengths, b),
    ensures
        lengths[a] == lengths[b] && a < b && (forall|k: int|
            a < k < b ==> #[trigger] lengths[k] != lengths[a]) ==> codeword(lengths, b) == codeword(
            lengths,
            a,
        ) + 1,
        lengths[a] < lengths[b] && (forall|k: int|
            a < k < lengths.len() ==> #[trigger] lengths[k] != lengths[a]) && (forall|k: int|
            0 <= k < b ==> #[trigger] lengths[k] != lengths[b]) && (forall|k: int|
            0 <= k < lengths.len() ==> !(lengths[a] < #[trigger] lengths[k] < lengths[b]))
            ==> codeword(lengths, b) == (codeword(lengths, a) + 1) * pow2(
            (lengths[b] - lengths[a]) as nat,
        ),
        (forall|k: int| 0 <= k < a ==> #[trigger] lengths[k] != lengths[a]) && (forall|k: int|
            0 <= k < lengths.len() ==> #[trigger] lengths[k] == 0 || lengths[k] >= lengths[a])
            ==> codeword(lengths, a) == 0,
{
    let la = lengths[a] as int;
    let lb = lengths[b] as int;
    lemma_count_step(lengths, a, la);
    bits::lemma_pow2_small();
    if la == lb && a < b && (forall|k: int| a < k < b ==> #[trigger] lengths[k] != lengths[a]) {
        lemma_count_gap(lengths, a + 1, b, la);
    }
    if la < lb && (forall|k: int| a < k < lengths.len() ==> #[trigger] lengths[k] != lengths[a]) && (
    forall|k: int| 0 <= k < b ==> #[trigger] lengths[k] != lengths[b]) && (forall|k: int|
        0 <= k < lengths.len() ==> !(lengths[a] < #[trigger] lengths[k] < lengths[b])) {
        lemma_count_gap(lengths, a + 1, lengths.len() as int, la);
        assert(lengths.take(lengths.len() as int) =~= lengths);
        assert(codeword(lengths, a) + 1 == used(lengths, la as nat));
        lemma_count_gap(lengths, 0, b, lb);
        assert(lengths.take(0) =~= Seq::empty());
        lemma_used_gap(lengths, la as nat, (lb - 1) as nat);
        bits::lemma_pow2_step((lb - 1 - la) as nat);
        assert((lb - 1 - la + 1) as nat == (lb - la) as nat);
        let u = used(lengths, la as nat);
        assert(2 * (u * pow2((lb - 1 - la) as nat)) == u * (2 * pow2((lb - 1 - la) as nat)))
            by (nonlinear_arith);
    }
    if (forall|k: int| 0 <= k < a ==> #[trigger] lengths[k] != lengths[a]) && (forall|k: int|
        0 <= k < lengths.len() ==> #[trigger] lengths[k] == 0 || lengths[k] >= lengths[a]) {
        lemma_count_gap(lengths, 0, a, la);
        assert(lengths.take(0) =~= Seq::empty());
        lemma_used_nothing(lengths, (la - 1) as nat);
    }
}

proof fn lemma_used_nothing(lengths: Seq<u8>, l: nat)
    requires
        forall|k: int| 0 <= k < lengths.len() ==> #[trigger] lengths[k] == 0 || lengths[k] > l,
    ensures
        l > 0 ==> used(lengths, l) == 0,
    decreases l,
{
    if l > 0 {
        lemma_used_nothing(lengths, (l - 1) as nat);
        lemma_count_gap(lengths, 0, lengths.len() as int, l as int);
        assert(lengths.take(lengths.len() as int) =~= lengths);
        assert(lengths.take(0) =~= Seq::empty());
    }
}

} // verus!
