//! Bit streams: the order in which DEFLATE reads and writes the bits of a byte sequence.
//!
//! Bit `8 * i + j` of a byte sequence is bit `j` of byte `i`, counted from the least
//! significant one. Plain numbers are stored least significant bit first, Huffman codes most
//! significant bit first, and bits past the end of the data read as zero.

use vstd::prelude::*;
use vstd::arithmetic::power2::*;
use vstd::arithmetic::div_mod::*;

verus! {

/// Bit `i` of `data`, as zero or one. Bits outside the data are zero.
pub open spec fn bit(data: Seq<u8>, i: int) -> nat {
    if 0 <= i < 8 * data.len() {
        (data[i / 8] as nat / pow2((i % 8) as nat)) % 2
    } else {
        0
    }
}

/// The number that the `n` bits from position `p` hold, least significant bit first.
pub open spec fn value(data: Seq<u8>, p: int, n: nat) -> nat
    decreases n,
{
    if n == 0 {
        0
    } else {
        let m = (n - 1) as nat;
        value(data, p, m) + pow2(m) * bit(data, p + m)
    }
}

/// The number that the `n` bits from position `p` hold, most significant bit first.
pub open spec fn code_value(data: Seq<u8>, p: int, n: nat) -> nat
    decreases n,
{
    if n == 0 {
        0
    } else {
        let m = (n - 1) as nat;
        2 * code_value(data, p, m) + bit(data, p + m)
    }
}

/// The low `n` bits of `v` in the opposite order.
pub open spec fn reversed(n: nat, v: nat) -> nat
    decreases n,
{
    if n == 0 {
        0
    } else {
        let m = (n - 1) as nat;
        pow2(m) * (v % 2) + reversed(m, v / 2)
    }
}

/// The low `n` bits of `v`, least significant bit first.
pub open spec fn lsb(v: nat, n: nat) -> Seq<bool> {
    Seq::new(n, |i: int| (v / pow2(i as nat)) % 2 == 1)
}

/// All the bits of `data` in stream order.
pub open spec fn bits_of(data: Seq<u8>) -> Seq<bool> {
    Seq::new(8 * data.len(), |i: int| bit(data, i) == 1)
}

/// Whether `data` holds the bits `e` from position `p` on.
pub open spec fn holds(data: Seq<u8>, p: int, e: Seq<bool>) -> bool {
    &&& 0 <= p
    &&& p + e.len() <= 8 * data.len()
    &&& forall|i: int| 0 <= i < e.len() ==> #[trigger] e[i] == (bit(data, p + i) == 1)
}

/// Number of zero bits that take position `p` to the next byte boundary.
pub open spec fn padding(p: int) -> int {
    (8 - p % 8) % 8
}

pub proof fn lemma_pow2_step(n: nat)
    ensures
        pow2(n + 1) == 2 * pow2(n),
        pow2(n) > 0,
{
    lemma_pow2_unfold(n + 1);
    lemma_pow2_pos(n);
}

pub proof fn lemma_pow2_small()
    ensures
        pow2(0) == 1,
        pow2(1) == 2,
        pow2(2) == 4,
        pow2(3) == 8,
        pow2(4) == 16,
        pow2(5) == 32,
        pow2(6) == 64,
        pow2(7) == 128,
        pow2(8) == 256,
        pow2(9) == 512,
        pow2(10) == 1024,
        pow2(11) == 2048,
        pow2(12) == 4096,
        pow2(13) == 8192,
        pow2(14) == 16384,
        pow2(15) == 32768,
        pow2(16) == 65536,
{
    lemma2_to64();
}

pub proof fn lemma_pow2_zero(x: nat)
    ensures
        pow2(0) == 1,
        pow2(0) * x == x,
        x / pow2(0) == x,
        x % pow2(0) == 0,
{
    lemma_pow2_small();
    assert(1 * x == x);
    assert(x / 1 == x && x % 1 == 0);
}

pub proof fn lemma_pow2_monotonic(a: nat, b: nat)
    requires
        a <= b,
    ensures
        pow2(a) <= pow2(b),
        pow2(b) == pow2(a) * pow2((b - a) as nat),
        pow2(a) > 0,
{
    lemma_pow2_adds(a, (b - a) as nat);
    lemma_pow2_pos(a);
    lemma_pow2_pos((b - a) as nat);
    assert(pow2(a) <= pow2(a) * pow2((b - a) as nat)) by (nonlinear_arith)
        requires
            pow2(a) > 0,
            pow2((b - a) as nat) > 0,
    ;
}

/// Splitting a number at a power of two.
pub proof fn lemma_split(lo: nat, hi: nat, m: nat)
    requires
        lo < m,
    ensures
        (lo + m * hi) % m == lo,
        (lo + m * hi) / m == hi,
{
    assert(m * hi == hi * m) by (nonlinear_arith);
    lemma_fundamental_div_mod_converse((lo + m * hi) as int, m as int, hi as int, lo as int);
}

/// Reducing modulo `a * b` and then modulo `a` is reducing modulo `a`.
pub proof fn lemma_mod_of_mod(x: nat, a: nat, b: nat)
    requires
        a > 0,
        b > 0,
    ensures
        (x % (a * b)) % a == x % a,
        a * b > 0,
{
    assert(a * b > 0) by (nonlinear_arith)
        requires
            a > 0,
            b > 0,
    ;
    lemma_mod_breakdown(x as int, a as int, b as int);
    let hi = (x / a) % b;
    assert(hi < b);
    assert((x % (a * b)) == a * hi + x % a);
    assert(x % a < a);
    lemma_split(x % a, hi, a);
    assert(a * hi + x % a == x % a + a * hi);
}

pub proof fn lemma_bit_bound(data: Seq<u8>, i: int)
    ensures
        bit(data, i) <= 1,
{
}

pub proof fn lemma_value_bound(data: Seq<u8>, p: int, n: nat)
    ensures
        value(data, p, n) < pow2(n),
    decreases n,
{
    lemma_pow2_pos(n);
    if n > 0 {
        let m = (n - 1) as nat;
        lemma_value_bound(data, p, m);
        lemma_pow2_step(m);
        lemma_bit_bound(data, p + m);
        let b = bit(data, p + m);
        assert(pow2(m) * b <= pow2(m)) by (nonlinear_arith)
            requires
                b <= 1,
        ;
    }
}

/// One bit is its own value.
pub proof fn lemma_value_one(data: Seq<u8>, p: int)
    ensures
        value(data, p, 1) == bit(data, p),
{
    lemma_pow2_zero(bit(data, p));
    assert(value(data, p, 0) == 0);
    assert(value(data, p, 1) == value(data, p, 0) + pow2(0) * bit(data, p + 0));
}

/// The first `a` of `a + b` bits are the low part of the number, the rest the high part.
pub proof fn lemma_value_split(data: Seq<u8>, p: int, a: nat, b: nat)
    ensures
        value(data, p, a + b) == value(data, p, a) + pow2(a) * value(data, p + a, b),
        value(data, p, a + b) % pow2(a) == value(data, p, a),
        value(data, p, a + b) / pow2(a) == value(data, p + a, b),
        pow2(a) > 0,
    decreases b,
{
    lemma_value_bound(data, p, a);
    if b == 0 {
        assert(pow2(a) * 0 == 0) by (nonlinear_arith);
    } else {
        let m = (b - 1) as nat;
        lemma_value_split(data, p, a, m);
        let x = bit(data, p + a + m);
        lemma_pow2_adds(a, m);
        assert(pow2(a) * (value(data, p + a, m) + pow2(m) * x) == pow2(a) * value(data, p + a, m)
            + pow2(a) * pow2(m) * x) by (nonlinear_arith);
        assert(value(data, p + a, b) == value(data, p + a, m) + pow2(m) * x);
        assert((a + b - 1) as nat == a + m);
    }
    lemma_split(value(data, p, a), value(data, p + a, b), pow2(a));
}

/// The first bits at a byte boundary are the low bits of that byte.
proof fn lemma_value_in_byte(data: Seq<u8>, i: int, k: nat)
    requires
        0 <= i < data.len(),
        k <= 8,
    ensures
        value(data, 8 * i, k) == data[i] as nat % pow2(k),
    decreases k,
{
    lemma_pow2_small();
    if k > 0 {
        let m = (k - 1) as nat;
        lemma_value_in_byte(data, i, m);
        assert((8 * i + m) / 8 == i && (8 * i + m) % 8 == m);
        lemma_pow2_step(m);
        lemma_mod_breakdown(data[i] as int, pow2(m) as int, 2);
    }
}

/// Eight bits at a byte boundary are that byte.
pub proof fn lemma_value_byte(data: Seq<u8>, i: int)
    requires
        0 <= i < data.len(),
    ensures
        value(data, 8 * i, 8) == data[i],
{
    lemma_pow2_small();
    lemma_value_in_byte(data, i, 8);
}

/// Past the end of the data every number is zero.
pub proof fn lemma_value_past(data: Seq<u8>, p: int, n: nat)
    requires
        p >= 8 * data.len(),
    ensures
        value(data, p, n) == 0,
    decreases n,
{
    if n > 0 {
        lemma_value_past(data, p, (n - 1) as nat);
        assert(pow2((n - 1) as nat) * 0 == 0) by (nonlinear_arith);
    }
}

pub proof fn lemma_reversed_bound(n: nat, v: nat)
    ensures
        reversed(n, v) < pow2(n),
    decreases n,
{
    lemma_pow2_pos(n);
    if n > 0 {
        let m = (n - 1) as nat;
        lemma_reversed_bound(m, v / 2);
        lemma_pow2_step(m);
        let b = v % 2;
        assert(pow2(m) * b <= pow2(m)) by (nonlinear_arith)
            requires
                b <= 1,
        ;
    }
}

/// Reversing one bit more puts that bit at the low end.
pub proof fn lemma_reversed_append(n: nat, v: nat)
    ensures
        reversed(n + 1, v) == 2 * reversed(n, v) + (v / pow2(n)) % 2,
    decreases n,
{
    lemma_pow2_zero(v);
    lemma_pow2_pos(n);
    if n == 0 {
        lemma_pow2_zero(v % 2);
        assert(reversed(1, v) == pow2(0) * (v % 2) + reversed(0, v / 2));
    } else {
        let m = (n - 1) as nat;
        lemma_reversed_append(m, v / 2);
        lemma_pow2_step(m);
        lemma_pow2_pos(m);
        lemma_div_denominator(v as int, 2, pow2(m) as int);
        let b = v % 2;
        assert(pow2(n) * b == 2 * (pow2(m) * b)) by (nonlinear_arith)
            requires
                pow2(n) == 2 * pow2(m),
        ;
    }
}

/// Reversal tells different numbers apart.
pub proof fn lemma_reversed_injective(n: nat, a: nat, b: nat)
    requires
        a < pow2(n),
        b < pow2(n),
        reversed(n, a) == reversed(n, b),
    ensures
        a == b,
    decreases n,
{
    if n == 0 {
        lemma_pow2_small();
    } else {
        let m = (n - 1) as nat;
        lemma_pow2_step(m);
        lemma_reversed_bound(m, a / 2);
        lemma_reversed_bound(m, b / 2);
        lemma_split(reversed(m, a / 2), a % 2, pow2(m));
        lemma_split(reversed(m, b / 2), b % 2, pow2(m));
        lemma_reversed_injective(m, a / 2, b / 2);
    }
}

/// A code read most significant bit first is the reversal of the same bits read the other
/// way.
pub proof fn lemma_value_is_reversed_code(data: Seq<u8>, p: int, n: nat)
    ensures
        value(data, p, n) == reversed(n, code_value(data, p, n)),
        code_value(data, p, n) < pow2(n),
    decreases n,
{
    lemma_pow2_pos(n);
    if n > 0 {
        let m = (n - 1) as nat;
        lemma_value_is_reversed_code(data, p, m);
        lemma_pow2_step(m);
        let c = code_value(data, p, m);
        let b = bit(data, p + m);
        lemma_bit_bound(data, p + m);
        assert((2 * c + b) % 2 == b && (2 * c + b) / 2 == c);
    }
}

/// A codeword is next in the stream exactly when its reversal is.
pub proof fn lemma_code_match(data: Seq<u8>, p: int, n: nat, c: nat)
    requires
        c < pow2(n),
    ensures
        code_value(data, p, n) == c <==> value(data, p, n) == reversed(n, c),
{
    lemma_value_is_reversed_code(data, p, n);
    if value(data, p, n) == reversed(n, c) {
        lemma_reversed_injective(n, code_value(data, p, n), c);
    }
}

pub proof fn lemma_lsb_step(v: nat, n: nat)
    ensures
        lsb(v, n + 1) == lsb(v, n).push((v / pow2(n)) % 2 == 1),
{
    assert(lsb(v, n + 1) =~= lsb(v, n).push((v / pow2(n)) % 2 == 1));
}

/// The low bits of `v` give back `v` reduced to those bits.
pub proof fn lemma_holds_value(data: Seq<u8>, p: int, v: nat, n: nat)
    requires
        holds(data, p, lsb(v, n)),
    ensures
        value(data, p, n) == v % pow2(n),
        v < pow2(n) ==> value(data, p, n) == v,
    decreases n,
{
    lemma_pow2_pos(n);
    if n == 0 {
        lemma_pow2_small();
    } else {
        let m = (n - 1) as nat;
        lemma_lsb_step(v, m);
        let e = lsb(v, n);
        let f = lsb(v, m);
        assert forall|i: int| 0 <= i < f.len() implies #[trigger] f[i] == (bit(data, p + i) == 1) by {
            assert(f[i] == e[i]);
        }
        lemma_holds_value(data, p, v, m);
        assert(e[m as int] == (bit(data, p + m) == 1));
        lemma_bit_bound(data, p + m);
        assert(bit(data, p + m) == (v / pow2(m)) % 2);
        lemma_pow2_step(m);
        lemma_mod_breakdown(v as int, pow2(m) as int, 2);
        assert(pow2(m) * 2 == pow2(n));
    }
    if v < pow2(n) {
        lemma_small_mod(v, pow2(n));
    }
}

/// Bits of a number put together from a low and a high part.
pub proof fn lemma_lsb_concat(lo: nat, a: nat, hi: nat, b: nat)
    requires
        lo < pow2(a),
    ensures
        lsb(lo + pow2(a) * hi, a + b) == lsb(lo, a) + lsb(hi, b),
{
    let v = lo + pow2(a) * hi;
    let l = lsb(v, a + b);
    let r = lsb(lo, a) + lsb(hi, b);
    assert forall|i: int| 0 <= i < a + b implies l[i] == r[i] by {
        if i < a {
            let k = i as nat;
            lemma_pow2_monotonic(k, a);
            let q = pow2((a - k) as nat);
            lemma_pow2_step((a - k - 1) as nat);
            let h = pow2((a - k - 1) as nat);
            // v / 2^k = lo / 2^k + q * hi, and q is even.
            assert(v == pow2(k) * (q * hi) + lo) by (nonlinear_arith)
                requires
                    v == lo + pow2(a) * hi,
                    pow2(a) == pow2(k) * q,
            ;
            lemma_hoist_over_denominator(lo as int, (q * hi) as int, pow2(k));
            assert(pow2(k) * (q * hi) == (q * hi) * pow2(k)) by (nonlinear_arith);
            assert(v / pow2(k) == lo / pow2(k) + q * hi);
            assert(q * hi == 2 * (h * hi)) by (nonlinear_arith)
                requires
                    q == 2 * h,
            ;
            assert((lo / pow2(k) + 2 * (h * hi)) % 2 == (lo / pow2(k)) % 2);
        } else {
            let k = (i - a) as nat;
            lemma_pow2_adds(a, k);
            lemma_pow2_pos(a);
            lemma_pow2_pos(k);
            lemma_div_denominator(v as int, pow2(a) as int, pow2(k) as int);
            lemma_split(lo, hi, pow2(a));
            assert(i as nat == a + k);
        }
    }
    assert(l =~= r);
}

/// Appending a byte appends its eight bits.
pub proof fn lemma_bits_push(data: Seq<u8>, b: u8)
    ensures
        bits_of(data.push(b)) == bits_of(data) + lsb(b as nat, 8),
{
    let l = bits_of(data.push(b));
    let r = bits_of(data) + lsb(b as nat, 8);
    let n = 8 * data.len();
    assert forall|i: int| 0 <= i < n + 8 implies l[i] == r[i] by {
        if i < n {
            assert(data.push(b)[i / 8] == data[i / 8]);
        } else {
            assert(i / 8 == data.len() && i % 8 == i - n);
        }
    }
    assert(l =~= r);
}

/// Bits of two byte sequences one after the other.
pub proof fn lemma_bits_concat(a: Seq<u8>, b: Seq<u8>)
    ensures
        bits_of(a + b) == bits_of(a) + bits_of(b),
{
    let l = bits_of(a + b);
    let r = bits_of(a) + bits_of(b);
    let n = 8 * a.len();
    assert forall|i: int| 0 <= i < l.len() implies l[i] == r[i] by {
        if i >= n {
            assert((i - n) / 8 == i / 8 - a.len() && (i - n) % 8 == i % 8);
        }
    }
    assert(l =~= r);
}

/// A stretch of the bits of `data` is held where it stands.
pub proof fn lemma_holds_part(data: Seq<u8>, before: Seq<bool>, e: Seq<bool>, after: Seq<bool>)
    requires
        bits_of(data) == before + e + after,
    ensures
        holds(data, before.len() as int, e),
{
    let all = before + e + after;
    let whole = bits_of(data);
    assert(whole.len() == 8 * data.len());
    assert(all.len() == before.len() + e.len() + after.len());
    assert forall|i: int| 0 <= i < e.len() implies #[trigger] e[i] == (bit(data, before.len() + i) == 1) by {
        let k = before.len() + i;
        assert(all[k] == e[i]);
        assert(whole[k] == (bit(data, k) == 1));
    }
}

/// Held bits can be taken apart.
pub proof fn lemma_holds_concat(data: Seq<u8>, p: int, a: Seq<bool>, b: Seq<bool>)
    requires
        holds(data, p, a + b),
    ensures
        holds(data, p, a),
        holds(data, p + a.len(), b),
{
    let e = a + b;
    assert forall|i: int| 0 <= i < a.len() implies #[trigger] a[i] == (bit(data, p + i) == 1) by {
        assert(e[i] == a[i]);
    }
    assert forall|i: int| 0 <= i < b.len() implies #[trigger] b[i] == (bit(data, p + a.len() + i) == 1) by {
        assert(e[a.len() + i] == b[i]);
        assert(p + (a.len() + i) == p + a.len() + i);
    }
}

} // verus!
