//! Lookup tables that resolve the next codeword of a stream in one or two steps.
//!
//! The primary table is indexed with the next few bits of the stream. A codeword too long for
//! it shares its leading bits with a group of others; the primary entry for those bits then
//! points to a second table, indexed with the bits that follow.

use vstd::prelude::*;
use vstd::arithmetic::power2::*;
use vstd::arithmetic::div_mod::*;
use crate::bits;
use crate::code;
use crate::huffman::canonical_codes;

verus! {

/// What a table says about the bits it was indexed with.
#[derive(Clone, Copy, Debug)]
pub enum Entry {
    /// No codeword begins like this.
    Invalid,
    /// The codeword of `symbol`, which is `bits` bits long.
    Symbol { symbol: u16, bits: u8 },
    /// The codewords of two literals one after the other, `bits` bits together.
    Literals { first: u8, second: u8, bits: u8 },
    /// A codeword longer than the primary index; its rest indexes the second table from
    /// `start` on.
    Long { start: u32 },
}

/// A decoding table for one code.
#[derive(Debug)]
pub struct Table {
    /// Number of bits that index the primary table.
    pub width: u32,
    pub primary: Vec<Entry>,
    pub secondary: Vec<Entry>,
}

/// Whether `entry` says the truth about a stream that goes on with the bits of `window`.
pub open spec fn truthful(lengths: Seq<u8>, window: nat, entry: Entry) -> bool {
    match entry {
        Entry::Invalid => forall|s: int| !#[trigger] code::hit(lengths, s, window),
        Entry::Symbol { symbol, bits } => code::hit(lengths, symbol as int, window) && bits
            == lengths[symbol as int],
        Entry::Literals { first, second, bits } => {
            &&& code::hit(lengths, first as int, window)
            &&& code::hit(lengths, second as int, window / pow2(lengths[first as int] as nat))
            &&& bits == lengths[first as int] + lengths[second as int]
            &&& bits <= 15
        },
        Entry::Long { .. } => false,
    }
}

/// Whether a window begins with the codewords of two literals that fit an index of `width`
/// bits together.
pub open spec fn paired(lengths: Seq<u8>, width: nat, window: nat, a: int, b: int) -> bool {
    &&& 0 <= a < 256
    &&& 0 <= b < 256
    &&& code::hit(lengths, a, window)
    &&& code::hit(lengths, b, window / pow2(lengths[a] as nat))
    &&& lengths[a] + lengths[b] <= width
}

/// The entry for two literals in a row.
pub open spec fn pair_entry(lengths: Seq<u8>, a: int, b: int) -> Entry {
    Entry::Literals {
        first: a as u8,
        second: b as u8,
        bits: (lengths[a] + lengths[b]) as u8,
    }
}

impl Table {
    /// Number of bits that index the second table.
    pub open spec fn rest(&self) -> nat {
        (15 - self.width) as nat
    }

    pub open spec fn wf(&self) -> bool {
        &&& 1 <= self.width <= 14
        &&& self.primary@.len() == pow2(self.width as nat)
        &&& forall|i: int|
            0 <= i < self.primary@.len() ==> (#[trigger] self.primary@[i] matches Entry::Long { start }
                ==> start + pow2(self.rest()) <= self.secondary@.len())
        &&& forall|i: int|
            0 <= i < self.secondary@.len() ==> !(#[trigger] self.secondary@[i] is Long)
    }

    /// What the table says about a stream that goes on with the bits of `window`.
    pub open spec fn resolve(&self, window: nat) -> Entry {
        match self.primary@[(window % pow2(self.width as nat)) as int] {
            Entry::Long { start } => self.secondary@[start + (window / pow2(self.width as nat))
                % pow2(self.rest())],
            entry => entry,
        }
    }

    /// Whether no entry stands for a pair of literals.
    #[verifier::opaque]
    pub open spec fn plain(&self) -> bool {
        &&& forall|i: int|
            0 <= i < self.primary@.len() ==> !(#[trigger] self.primary@[i] is Literals)
        &&& forall|i: int|
            0 <= i < self.secondary@.len() ==> !(#[trigger] self.secondary@[i] is Literals)
    }

    /// Whether this is `other` with two literals resolved at once wherever they fit the primary
    /// index together, and nothing else changed.
    #[verifier::opaque]
    pub open spec fn packs(&self, lengths: Seq<u8>, other: Table) -> bool {
        &&& self.width == other.width
        &&& self.primary@.len() == other.primary@.len()
        &&& self.secondary@ == other.secondary@
        &&& forall|w: nat, a: int, b: int|
            w < pow2(15) && #[trigger] paired(lengths, self.width as nat, w, a, b) ==> self.resolve(
                w,
            ) == pair_entry(lengths, a, b)
        &&& forall|w: nat|
            w < pow2(15) && (forall|a: int, b: int|
                !#[trigger] paired(lengths, self.width as nat, w, a, b)) ==> #[trigger] self.resolve(
                w,
            ) == other.resolve(w)
    }

    /// Whether two literals are resolved at once exactly where they fit the primary index
    /// together.
    #[verifier::opaque]
    pub open spec fn packed(&self, lengths: Seq<u8>) -> bool {
        &&& forall|w: nat, a: int, b: int|
            w < pow2(15) && #[trigger] paired(lengths, self.width as nat, w, a, b) ==> self.resolve(
                w,
            ) == pair_entry(lengths, a, b)
        &&& forall|w: nat|
            w < pow2(15) && (forall|a: int, b: int|
                !#[trigger] paired(lengths, self.width as nat, w, a, b)) ==> !(#[trigger] self.resolve(
                w,
            ) is Literals)
    }

    /// Whether the table decodes the code that `lengths` describes.
    #[verifier::opaque]
    pub open spec fn serves(&self, lengths: Seq<u8>) -> bool {
        &&& self.wf()
        &&& forall|w: nat|
            w < pow2(15) ==> truthful(lengths, w, #[trigger] self.resolve(w))
    }

    /// A table of `2^width` entries that knows no codeword.
    pub fn new(width: u32) -> (table: Table)
        requires
            1 <= width <= 14,
        ensures
            table.wf(),
            table.width == width,
            forall|i: int| 0 <= i < table.primary@.len() ==> #[trigger] table.primary@[i] is Invalid,
            table.secondary@ == Seq::<Entry>::empty(),
    {
        proof {
            bits::lemma_pow2_small();
            bits::lemma_pow2_monotonic(width as nat, 14);
            vstd::bits::lemma_usize_shl_is_mul(1, width as usize);
        }
        let size: usize = 1usize << (width as usize);
        Table { width, primary: vec![Entry::Invalid; size], secondary: Vec::new() }
    }

    /// Resolves the next fifteen bits of a stream.
    pub fn lookup(&self, window: u32) -> (entry: Entry)
        requires
            self.wf(),
            window < pow2(15),
        ensures
            entry == self.resolve(window as nat),
    {
        proof {
            lemma_window_parts(window as nat, self.width as nat);
            bits::lemma_pow2_small();
            bits::lemma_pow2_monotonic(self.width as nat, 14);
            vstd::bits::lemma_u32_shl_is_mul(1, self.width);
            vstd::bits::lemma_u32_shr_is_div(window, self.width);
            vstd::bits::lemma_u32_low_bits_mask_is_mod(window, self.width as nat);
        }
        assert(self.secondary.len() <= usize::MAX);
        let index: usize = (window & ((1u32 << self.width) - 1)) as usize;
        match self.primary[index] {
            Entry::Long { start } => self.secondary[start as usize + (window >> self.width) as usize],
            entry => entry,
        }
    }
}

/// What a truthful entry says about the stream it was looked up for.
pub proof fn lemma_lookup_decodes(table: Table, lengths: Seq<u8>, data: Seq<u8>, p: int)
    requires
        table.serves(lengths),
        code::fits(lengths),
    ensures
        table.wf(),
        bits::value(data, p, 15) < pow2(15),
        table.plain() ==> !(table.resolve(bits::value(data, p, 15)) is Literals),
        match table.resolve(bits::value(data, p, 15)) {
            Entry::Invalid => code::decode(lengths, data, p) is None,
            Entry::Symbol { symbol, bits } => code::decode(lengths, data, p) == Some(symbol as int)
                && bits == lengths[symbol as int] && 1 <= bits <= 15 && symbol < lengths.len(),
            Entry::Literals { first, second, bits } => {
                let q = p + lengths[first as int];
                &&& code::decode(lengths, data, p) == Some(first as int)
                &&& code::decode(lengths, data, q) == Some(second as int)
                &&& bits == lengths[first as int] + lengths[second as int]
                &&& bits <= 15
            },
            Entry::Long { .. } => false,
        },
{
    reveal(Table::serves);
    reveal(Table::plain);
    let w = bits::value(data, p, 15);
    bits::lemma_value_bound(data, p, 15);
    lemma_window_parts(w, table.width as nat);
    let entry = table.resolve(w);
    assert(truthful(lengths, w, entry));
    match entry {
        Entry::Invalid => {
            assert forall|s: int| !code::decodes(lengths, data, p, s) by {
                if code::decodes(lengths, data, p, s) {
                    code::lemma_codeword_bound(lengths, s);
                    code::lemma_hit_decodes(lengths, data, p, 15, s);
                }
            }
            code::lemma_decode_some(lengths, data, p);
        },
        Entry::Symbol { symbol, bits } => {
            code::lemma_codeword_bound(lengths, symbol as int);
            code::lemma_hit_decodes(lengths, data, p, 15, symbol as int);
            code::lemma_decode_is(lengths, data, p, symbol as int);
        },
        Entry::Literals { first, second, bits } => {
            let l = lengths[first as int] as nat;
            code::lemma_codeword_bound(lengths, first as int);
            code::lemma_codeword_bound(lengths, second as int);
            code::lemma_hit_decodes(lengths, data, p, 15, first as int);
            code::lemma_decode_is(lengths, data, p, first as int);
            bits::lemma_value_split(data, p, l, (15 - l) as nat);
            code::lemma_hit_decodes(lengths, data, p + l, (15 - l) as nat, second as int);
            code::lemma_decode_is(lengths, data, p + l, second as int);
        },
        Entry::Long { .. } => {},
    }
}

/// Residues do not recur within one step.
proof fn lemma_residue_gap(i: int, t: int, step: int)
    requires
        step > 0,
        i < t < i + step,
    ensures
        t % step != i % step,
{
    if t % step == i % step {
        lemma_fundamental_div_mod(t, step);
        lemma_fundamental_div_mod(i, step);
        let k = t / step - i / step;
        assert(step * (t / step) - step * (i / step) == step * k) by (nonlinear_arith)
            requires
                k == t / step - i / step,
        ;
        assert(t - i == step * k);
        assert(false) by (nonlinear_arith)
            requires
                0 < step * k < step,
                step > 0,
        ;
    }
}

/// Writes `entry` to every place of `table[base..base + size]` that leaves `first` when its
/// offset is divided by `step`.
fn fill(table: &mut Vec<Entry>, base: usize, size: usize, first: usize, step: usize, entry: Entry)
    requires
        base + size <= old(table)@.len(),
        first < step <= 65536,
        size <= 65536,
    ensures
        final(table)@.len() == old(table)@.len(),
        forall|t: int|
            0 <= t < old(table)@.len() ==> #[trigger] final(table)@[t] == if base <= t < base + size
                && (t - base) % step as int == first {
                entry
            } else {
                old(table)@[t]
            },
{
    let mut i: usize = first;
    let total: usize = table.len();
    proof {
        lemma_small_mod(first as nat, step as nat);
        assert forall|t: int| 0 <= t < first implies #[trigger] (t % step as int) != first by {
            lemma_small_mod(t as nat, step as nat);
        }
    }
    while i < size
        invariant
            base + size <= table@.len(),
            table@.len() == old(table)@.len() == total,
            first < step <= 65536,
            size <= 65536,
            i % step == first,
            i < size + step,
            forall|t: int|
                0 <= t < table@.len() ==> #[trigger] table@[t] == if base <= t < base + size && t < base
                    + i && (t - base) % step as int == first {
                    entry
                } else {
                    old(table)@[t]
                },
        decreases size + step - i,
    {
        table[base + i] = entry;
        proof {
            lemma_mod_add_multiples_vanish(i as int, step as int);
            assert forall|t: int| 0 <= t < table@.len() implies #[trigger] table@[t] == if base <= t
                < base + size && t < base + i + step && (t - base) % step as int == first {
                entry
            } else {
                old(table)@[t]
            } by {
                if base + i < t < base + i + step {
                    lemma_residue_gap(i as int, t - base, step as int);
                }
            }
        }
        i = i + step;
    }
}

/// Whether at most one symbol has a codeword.
fn is_degenerate(lengths: &[u8]) -> (degenerate: bool)
    ensures
        degenerate == code::degenerate(lengths@),
{
    let mut found: Option<usize> = None;
    let mut i: usize = 0;
    while i < lengths.len()
        invariant
            i <= lengths@.len(),
            match found {
                Some(s) => s < i && lengths@[s as int] != 0 && forall|t: int|
                    0 <= t < i && t != s ==> #[trigger] lengths@[t] == 0,
                None => forall|t: int| 0 <= t < i ==> #[trigger] lengths@[t] == 0,
            },
        decreases lengths.len() - i,
    {
        if lengths[i] != 0 {
            if found.is_some() {
                assert forall|s: int| !#[trigger] code::only_at(lengths@, s) by {
                    let first = found->0;
                    if s != first {
                        assert(lengths@[first as int] != 0);
                    } else {
                        assert(lengths@[i as int] != 0);
                    }
                }
                return false;
            }
            found = Some(i);
        }
        i = i + 1;
    }
    proof {
        let s: int = match found {
            Some(s) => s as int,
            None => -1,
        };
        assert(code::only_at(lengths@, s));
    }
    true
}

/// A window below `2^15` is its low and its high bits.
proof fn lemma_window_parts(w: nat, width: nat)
    requires
        1 <= width <= 14,
        w < pow2(15),
    ensures
        w == w % pow2(width) + pow2(width) * (w / pow2(width)),
        w / pow2(width) < pow2((15 - width) as nat),
        (w / pow2(width)) % pow2((15 - width) as nat) == w / pow2(width),
        pow2(width) > 0,
{
    bits::lemma_pow2_monotonic(width, 15);
    lemma_fundamental_div_mod(w as int, pow2(width) as int);
    let q = w / pow2(width);
    let r = pow2((15 - width) as nat);
    assert(q < r) by (nonlinear_arith)
        requires
            pow2(width) * q <= w,
            w < pow2(width) * r,
            pow2(width) > 0,
    ;
    lemma_small_mod(q, r);
}

/// The first places of a window decide whether a short codeword matches.
proof fn lemma_fill_hits(lengths: Seq<u8>, s: int, i: nat)
    requires
        code::fits(lengths),
        code::has_code(lengths, s),
    ensures
        code::hit(lengths, s, i) <==> i % pow2(lengths[s] as nat) == code::written(lengths, s),
        code::written(lengths, s) < pow2(lengths[s] as nat),
        pow2(lengths[s] as nat) <= 32768,
{
    code::lemma_codeword_bound(lengths, s);
    bits::lemma_reversed_bound(lengths[s] as nat, code::codeword(lengths, s));
    bits::lemma_pow2_small();
    bits::lemma_pow2_monotonic(lengths[s] as nat, 15);
}

/// The places of the primary table that short codewords have filled so far.
spec fn shorts_placed(lengths: Seq<u8>, primary: Seq<Entry>, width: nat, upto: int) -> bool {
    &&& forall|i: int, s: int|
        0 <= i < primary.len() && 0 <= s < upto && #[trigger] code::hit(lengths, s, i as nat)
            && lengths[s] <= width ==> #[trigger] primary[i] == (Entry::Symbol {
            symbol: s as u16,
            bits: lengths[s],
        })
    &&& forall|i: int|
        0 <= i < primary.len() ==> match #[trigger] primary[i] {
            Entry::Invalid => true,
            Entry::Symbol { symbol, bits } => code::hit(lengths, symbol as int, i as nat) && bits
                == lengths[symbol as int] && bits <= width,
            _ => false,
        }
}

/// Places every codeword that the primary table can hold.
fn place_shorts(lengths: &[u8], codes: &[u16], table: &mut Table)
    requires
        1 <= old(table).width <= 14,
        old(table).primary@.len() == pow2(old(table).width as nat),
        code::fits(lengths@),
        lengths@.len() <= 288,
        codes@.len() >= lengths@.len(),
        forall|i: int|
            0 <= i < lengths@.len() ==> #[trigger] codes@[i] == code::written(lengths@, i),
        forall|i: int| 0 <= i < old(table).primary@.len() ==> old(table).primary@[i] is Invalid,
    ensures
        final(table).width == old(table).width,
        final(table).secondary == old(table).secondary,
        final(table).primary@.len() == old(table).primary@.len(),
        shorts_placed(
            lengths@,
            final(table).primary@,
            old(table).width as nat,
            lengths@.len() as int,
        ),
{
    let ghost all = lengths@;
    let size: usize = table.primary.len();
    let mut s: usize = 0;
    proof {
        bits::lemma_pow2_small();
        bits::lemma_pow2_monotonic(table.width as nat, 14);
    }
    while s < lengths.len()
        invariant
            s <= lengths@.len() <= 288,
            all == lengths@,
            1 <= table.width <= 14,
            table.width == old(table).width,
            table.secondary == old(table).secondary,
            size == table.primary@.len() == pow2(table.width as nat),
            size <= 16384,
            code::fits(all),
            codes@.len() >= all.len(),
            forall|i: int| 0 <= i < all.len() ==> #[trigger] codes@[i] == code::written(all, i),
            shorts_placed(all, table.primary@, table.width as nat, s as int),
        decreases lengths.len() - s,
    {
        let length: u8 = lengths[s];
        if length != 0 && length as u32 <= table.width {
            let ghost before = table.primary@;
            proof {
                lemma_fill_hits(all, s as int, 0);
                vstd::bits::lemma_usize_shl_is_mul(1, length as usize);
            }
            let step: usize = 1usize << (length as usize);
            let entry = Entry::Symbol { symbol: s as u16, bits: length };
            fill(&mut table.primary, 0, size, codes[s] as usize, step, entry);
            proof {
                let now = table.primary@;
                assert forall|i: int| 0 <= i < now.len() implies #[trigger] now[i] == if code::hit(
                    all,
                    s as int,
                    i as nat,
                ) {
                    entry
                } else {
                    before[i]
                } by {
                    lemma_fill_hits(all, s as int, i as nat);
                }
                assert forall|i: int, t: int|
                    0 <= i < now.len() && 0 <= t < s + 1 && #[trigger] code::hit(all, t, i as nat)
                        && all[t] <= table.width implies #[trigger] now[i] == (Entry::Symbol {
                    symbol: t as u16,
                    bits: all[t],
                }) by {
                    if code::hit(all, s as int, i as nat) {
                        code::lemma_hit_unique(all, i as nat, s as int, t);
                    }
                }
            }
        }
        s = s + 1;
    }
}

/// A long codeword matches where its low bits index the primary table and its high bits the
/// second one.
proof fn lemma_long_hits(lengths: Seq<u8>, s: int, width: nat, i: nat, j: nat)
    requires
        code::fits(lengths),
        code::has_code(lengths, s),
        1 <= width < lengths[s],
        i < pow2(width),
    ensures
        code::hit(lengths, s, i + pow2(width) * j) <==> (i == code::written(lengths, s) % pow2(width)
            && j % pow2((lengths[s] - width) as nat) == code::written(lengths, s) / pow2(width)),
        code::written(lengths, s) / pow2(width) < pow2((lengths[s] - width) as nat),
        code::written(lengths, s) % pow2(width) < pow2(width),
        code::written(lengths, s) < pow2(lengths[s] as nat) <= 32768,
{
    let pw = pow2(width);
    let e = pow2((lengths[s] - width) as nat);
    let c = code::written(lengths, s);
    let x = i + pw * j;
    lemma_fill_hits(lengths, s, x);
    bits::lemma_pow2_monotonic(width, lengths[s] as nat);
    lemma_pow2_pos((lengths[s] - width) as nat);
    bits::lemma_split(i, j, pw);
    lemma_mod_breakdown(x as int, pw as int, e as int);
    lemma_fundamental_div_mod(c as int, pw as int);
    assert(c / pw < e) by (nonlinear_arith)
        requires
            pw * (c / pw) <= c,
            c < pw * e,
            pw > 0,
    ;
    bits::lemma_split(x % pw, j % e, pw);
    bits::lemma_split(c % pw, c / pw, pw);
}

/// The places of both tables once the long codewords below `upto` are in.
spec fn longs_placed(
    lengths: Seq<u8>,
    primary: Seq<Entry>,
    secondary: Seq<Entry>,
    width: nat,
    upto: int,
) -> bool {
    let span = pow2((15 - width) as nat);
    &&& forall|i: int, s: int|
        0 <= i < primary.len() && 0 <= s < lengths.len() && #[trigger] code::hit(lengths, s, i as nat)
            && lengths[s] <= width ==> #[trigger] primary[i] == (Entry::Symbol {
            symbol: s as u16,
            bits: lengths[s],
        })
    &&& forall|i: int|
        0 <= i < primary.len() ==> match #[trigger] primary[i] {
            Entry::Invalid => true,
            Entry::Symbol { symbol, bits } => code::hit(lengths, symbol as int, i as nat) && bits
                == lengths[symbol as int] && bits <= width,
            Entry::Long { start } => start + span <= secondary.len(),
            _ => false,
        }
    &&& forall|i: int, k: int|
        0 <= i < primary.len() && 0 <= k < primary.len() && i != k && (#[trigger] primary[i]) is Long
            && (#[trigger] primary[k]) is Long ==> apart(primary[i], primary[k], span)
    &&& forall|k: int|
        0 <= k < secondary.len() ==> !(#[trigger] secondary[k] is Long) && !(secondary[k] is Literals)
    &&& forall|i: int, j: int|
        0 <= i < primary.len() && primary[i] is Long && 0 <= j < span ==> honest(
            lengths,
            (i + pow2(width) * j) as nat,
            #[trigger] secondary[primary[i]->start + j],
        )
    &&& forall|t: int, j: int|
        0 <= t < upto && width < lengths[t] && 0 <= j < span && #[trigger] code::hit(
            lengths,
            t,
            (code::written(lengths, t) % pow2(width) + pow2(width) * j) as nat,
        ) ==> {
            let i = (code::written(lengths, t) % pow2(width)) as int;
            primary[i] is Long && secondary[primary[i]->start + j] == (Entry::Symbol {
                symbol: t as u16,
                bits: lengths[t],
            })
        }
}

/// Whether the stretches of the second table that two entries point to do not overlap.
spec fn apart(a: Entry, b: Entry, span: nat) -> bool {
    a->start + span <= b->start || b->start + span <= a->start
}

/// Whether an entry of the second table is empty or names the codeword in `window`.
spec fn honest(lengths: Seq<u8>, window: nat, entry: Entry) -> bool {
    match entry {
        Entry::Invalid => true,
        Entry::Symbol { symbol, bits } => code::hit(lengths, symbol as int, window) && bits
            == lengths[symbol as int],
        _ => false,
    }
}

/// Appends `count` empty entries.
fn extend_invalid(table: &mut Vec<Entry>, count: usize)
    requires
        old(table)@.len() + count <= usize::MAX,
    ensures
        final(table)@.len() == old(table)@.len() + count,
        forall|i: int| 0 <= i < old(table)@.len() ==> #[trigger] final(table)@[i] == old(table)@[i],
        forall|i: int|
            old(table)@.len() <= i < final(table)@.len() ==> #[trigger] final(table)@[i] is Invalid,
{
    let mut done: usize = 0;
    while done < count
        invariant
            done <= count,
            table@.len() == old(table)@.len() + done,
            forall|i: int| 0 <= i < old(table)@.len() ==> #[trigger] table@[i] == old(table)@[i],
            forall|i: int| old(table)@.len() <= i < table@.len() ==> #[trigger] table@[i] is Invalid,
        decreases count - done,
    {
        table.push(Entry::Invalid);
        done = done + 1;
    }
}

/// Places the long codeword of symbol `s`.
#[verifier::rlimit(30)]
fn place_long(lengths: &[u8], codes: &[u16], table: &mut Table, s: usize)
    requires
        1 <= old(table).width <= 14,
        old(table).primary@.len() == pow2(old(table).width as nat),
        old(table).secondary@.len() <= s * pow2((15 - old(table).width) as nat),
        code::fits(lengths@),
        s < lengths@.len() <= 288,
        lengths@[s as int] > old(table).width,
        codes@.len() >= lengths@.len(),
        codes@[s as int] == code::written(lengths@, s as int),
        longs_placed(
            lengths@,
            old(table).primary@,
            old(table).secondary@,
            old(table).width as nat,
            s as int,
        ),
    ensures
        final(table).width == old(table).width,
        final(table).primary@.len() == old(table).primary@.len(),
        final(table).secondary@.len() <= (s + 1) * pow2((15 - old(table).width) as nat),
        longs_placed(
            lengths@,
            final(table).primary@,
            final(table).secondary@,
            old(table).width as nat,
            s + 1,
        ),
{
    let ghost all = lengths@;
    let ghost width = table.width as nat;
    let ghost pw = pow2(width);
    let ghost rest = pow2((15 - width) as nat);
    let length: u8 = lengths[s];
    proof {
        bits::lemma_pow2_small();
        bits::lemma_pow2_monotonic((15 - width) as nat, 14);
        bits::lemma_pow2_monotonic((length - width) as nat, 14);
        lemma_long_hits(all, s as int, width, 0, 0);
        vstd::bits::lemma_usize_shl_is_mul(1, (15 - table.width) as usize);
        vstd::bits::lemma_usize_shl_is_mul(1, (length as u32 - table.width) as usize);
        assert((s + 1) * rest == s * rest + rest) by (nonlinear_arith);
        assert(s * rest <= 287 * 16384) by (nonlinear_arith)
            requires
                s <= 287,
                rest <= 16384,
        ;
    }
    let size: usize = table.primary.len();
    let span: usize = 1usize << ((15 - table.width) as usize);
    let step: usize = 1usize << ((length as u32 - table.width) as usize);
    let word: usize = codes[s] as usize;
    let prefix: usize = word % size;
    let high: usize = word / size;

    // No short codeword begins like this one, so the place is free or already a pointer.
    proof {
        if let Entry::Symbol { symbol, bits } = table.primary@[prefix as int] {
            code::lemma_hit_low(all, symbol as int, word as nat, width);
            lemma_fill_hits(all, s as int, word as nat);
            lemma_small_mod(word as nat, pow2(length as nat));
            code::lemma_hit_unique(all, word as nat, symbol as int, s as int);
            assert(false);
        }
    }
    let ghost primary0 = table.primary@;
    let ghost secondary0 = table.secondary@;
    let start: usize = match table.primary[prefix] {
        Entry::Long { start } => start as usize,
        _ => {
            let at: usize = table.secondary.len();
            extend_invalid(&mut table.secondary, span);
            table.primary[prefix] = Entry::Long { start: at as u32 };
            at
        },
    };
    let ghost primary1 = table.primary@;
    let ghost secondary1 = table.secondary@;
    assert(longs_placed(all, primary1, secondary1, width, s as int)) by {
        if !(primary0[prefix as int] is Long) {
            assert forall|i: int, t: int|
                0 <= i < primary1.len() && 0 <= t < all.len() && #[trigger] code::hit(all, t, i as nat)
                    && all[t] <= width implies #[trigger] primary1[i] == (Entry::Symbol {
                symbol: t as u16,
                bits: all[t],
            }) by {
                assert(primary0[i] is Symbol);
            }
            assert forall|i: int, j: int|
                0 <= i < primary1.len() && primary1[i] is Long && 0 <= j < rest implies honest(
                all,
                (i + pw * j) as nat,
                #[trigger] secondary1[primary1[i]->start + j],
            ) by {
                if i != prefix {
                    assert(secondary1[primary0[i]->start + j] == secondary0[primary0[i]->start + j]);
                }
            }
        }
    };
    let entry = Entry::Symbol { symbol: s as u16, bits: length };
    fill(&mut table.secondary, start, span, high, step, entry);
    proof {
        let secondary2 = table.secondary@;
        assert(primary1[prefix as int] == (Entry::Long { start: start as u32 }));
        // Inside this stretch exactly the matching places change.
        assert forall|j: int| 0 <= j < rest implies #[trigger] secondary2[start + j] == if code::hit(
            all,
            s as int,
            (prefix + pw * j) as nat,
        ) {
            entry
        } else {
            secondary1[start + j]
        } by {
            lemma_long_hits(all, s as int, width, prefix as nat, j as nat);
        }
        assert forall|i: int, j: int|
            0 <= i < primary1.len() && primary1[i] is Long && 0 <= j < rest implies honest(
            all,
            (i + pw * j) as nat,
            #[trigger] secondary2[primary1[i]->start + j],
        ) by {
            if i == prefix {
                assert(honest(all, (i + pw * j) as nat, secondary1[start + j]));
            } else {
                assert(apart(primary1[i], primary1[prefix as int], rest));
                assert(honest(all, (i + pw * j) as nat, secondary1[primary1[i]->start + j]));
            }
        }
        assert forall|t: int, j: int|
            0 <= t < s + 1 && width < all[t] && 0 <= j < rest && #[trigger] code::hit(
                all,
                t,
                (code::written(all, t) % pw + pw * j) as nat,
            ) implies {
            let i = (code::written(all, t) % pw) as int;
            primary1[i] is Long && secondary2[primary1[i]->start + j] == (Entry::Symbol {
                symbol: t as u16,
                bits: all[t],
            })
        } by {
            let i = (code::written(all, t) % pw) as int;
            if t == s {
                assert(i == prefix);
            } else {
                lemma_long_hits(all, t, width, 0, 0);
                if i == prefix {
                    if code::hit(all, s as int, (prefix + pw * j) as nat) {
                        code::lemma_hit_unique(all, (prefix + pw * j) as nat, s as int, t);
                    }
                    assert(secondary2[start + j] == secondary1[start + j]);
                } else {
                    assert(apart(primary1[i], primary1[prefix as int], rest));
                    assert(secondary2[primary1[i]->start + j] == secondary1[primary1[i]->start + j]);
                }
            }
        }
    }
}

/// With every codeword placed, the table decodes the code.
proof fn lemma_placed_serves(lengths: Seq<u8>, table: Table)
    requires
        1 <= table.width <= 14,
        table.primary@.len() == pow2(table.width as nat),
        code::fits(lengths),
        longs_placed(
            lengths,
            table.primary@,
            table.secondary@,
            table.width as nat,
            lengths.len() as int,
        ),
    ensures
        table.serves(lengths),
        table.plain(),
{
    reveal(Table::serves);
    reveal(Table::plain);
    let width = table.width as nat;
    let pw = pow2(width);
    assert forall|w: nat| w < pow2(15) implies truthful(lengths, w, #[trigger] table.resolve(w)) by {
        lemma_window_parts(w, width);
        let i = (w % pw) as int;
        let j = (w / pw) as int;
        let entry = table.primary@[i];
        if let Entry::Symbol { symbol, bits } = entry {
            code::lemma_hit_low(lengths, symbol as int, w, width);
        } else {
            // Whatever matches is a long codeword, which its own place records.
            if entry is Long {
                assert(honest(lengths, (i + pw * j) as nat, table.secondary@[entry->start + j]));
            }
            assert forall|s: int| #[trigger] code::hit(lengths, s, w) implies table.resolve(w) == (
            Entry::Symbol { symbol: s as u16, bits: lengths[s] }) by {
                if lengths[s] <= width {
                    code::lemma_hit_low(lengths, s, w, width);
                    assert(code::hit(lengths, s, i as nat));
                } else {
                    lemma_long_hits(lengths, s, width, i as nat, j as nat);
                    assert(code::hit(
                        lengths,
                        s,
                        (code::written(lengths, s) % pw + pw * j) as nat,
                    ));
                }
            }
        }
    }
}

/// Two codewords in a row match exactly where the second follows the first.
proof fn lemma_pair_hits(lengths: Seq<u8>, a: int, b: int, w: nat, width: nat)
    requires
        code::fits(lengths),
        code::has_code(lengths, a),
        code::has_code(lengths, b),
        lengths[a] + lengths[b] <= width,
    ensures
        (w % pow2(width)) % pow2((lengths[a] + lengths[b]) as nat) == code::written(lengths, a) + pow2(
            lengths[a] as nat,
        ) * code::written(lengths, b) <==> code::hit(lengths, a, w) && code::hit(
            lengths,
            b,
            w / pow2(lengths[a] as nat),
        ),
{
    let la = lengths[a] as nat;
    let lb = lengths[b] as nat;
    let ca = code::written(lengths, a);
    let cb = code::written(lengths, b);
    lemma_fill_hits(lengths, a, w);
    lemma_fill_hits(lengths, b, w / pow2(la));
    bits::lemma_pow2_monotonic(la + lb, width);
    lemma_pow2_adds(la, lb);
    lemma_pow2_pos((width - (la + lb)) as nat);
    lemma_pow2_pos(la);
    lemma_pow2_pos(lb);
    bits::lemma_mod_of_mod(w, pow2(la + lb), pow2((width - (la + lb)) as nat));
    lemma_mod_breakdown(w as int, pow2(la) as int, pow2(lb) as int);
    bits::lemma_split(w % pow2(la), (w / pow2(la)) % pow2(lb), pow2(la));
    bits::lemma_split(ca, cb, pow2(la));
}

/// Whether `literals` are the literals whose codewords are shorter than `width`, shortest
/// first.
spec fn short_literals(lengths: Seq<u8>, width: nat, literals: Seq<u8>) -> bool {
    &&& forall|i: int|
        0 <= i < literals.len() ==> code::has_code(lengths, #[trigger] literals[i] as int)
            && lengths[literals[i] as int] < width
    &&& forall|i: int, j: int|
        0 <= i <= j < literals.len() ==> lengths[#[trigger] literals[i] as int]
            <= lengths[#[trigger] literals[j] as int]
    &&& forall|s: int|
        0 <= s < 256 && code::has_code(lengths, s) && lengths[s] < width
            ==> #[trigger] literals.contains(s as u8)
}

/// The literals whose codewords are short enough to be paired, shortest first.
fn pairable(lengths: &[u8], width: u32) -> (literals: Vec<u8>)
    requires
        1 <= width <= 14,
    ensures
        short_literals(lengths@, width as nat, literals@),
{
    let mut literals: Vec<u8> = Vec::new();
    let mut length: u32 = 1;
    let ghost all = lengths@;
    while length < width
        invariant
            1 <= length <= width <= 14,
            all == lengths@,
            short_literals(all, length as nat, literals@),
        decreases width - length,
    {
        let mut s: usize = 0;
        while s < 256 && s < lengths.len()
            invariant
                1 <= length < width <= 14,
                all == lengths@,
                s <= 256,
                s <= all.len(),
                forall|i: int|
                    0 <= i < literals@.len() ==> code::has_code(all, #[trigger] literals@[i] as int)
                        && all[literals@[i] as int] <= length,
                forall|i: int, j: int|
                    0 <= i <= j < literals@.len() ==> all[#[trigger] literals@[i] as int]
                        <= all[#[trigger] literals@[j] as int],
                forall|t: int|
                    0 <= t < 256 && code::has_code(all, t) && (all[t] < length || all[t] == length
                        && t < s) ==> #[trigger] literals@.contains(t as u8),
            decreases 256 - s,
        {
            let ghost before = literals@;
            if lengths[s] as u32 == length {
                literals.push(s as u8);
            }
            proof {
                assert forall|t: int|
                    0 <= t < 256 && code::has_code(all, t) && (all[t] < length || all[t] == length
                        && t < s + 1) implies #[trigger] literals@.contains(t as u8) by {
                    if t == s && all[t] == length {
                        assert(literals@[before.len() as int] == t as u8);
                    } else {
                        assert(before.contains(t as u8));
                        let k = choose|k: int| 0 <= k < before.len() && before[k] == t as u8;
                        assert(literals@[k] == t as u8);
                    }
                }
            }
            s = s + 1;
        }
        length = length + 1;
    }
    literals
}

/// Whether `table` is `old` with the first `i` literals paired with every literal, and the
/// next one with the first `j`, as far as the pairs fit.
#[verifier::opaque]
spec fn pairs_placed(
    lengths: Seq<u8>,
    literals: Seq<u8>,
    old_table: Table,
    table: Table,
    i: int,
    j: int,
) -> bool {
    &&& table.width == old_table.width
    &&& table.primary@.len() == old_table.primary@.len()
    &&& table.secondary@ == old_table.secondary@
    &&& forall|w: nat, p: int, q: int|
        w < pow2(15) && 0 <= p < literals.len() && 0 <= q < literals.len() && (p < i || p == i && q
            < j) && #[trigger] paired(
            lengths,
            table.width as nat,
            w,
            literals[p] as int,
            literals[q] as int,
        ) ==> table.resolve(w) == pair_entry(lengths, literals[p] as int, literals[q] as int)
    &&& forall|w: nat|
        w < pow2(15) && (forall|a: int, b: int|
            !#[trigger] paired(lengths, table.width as nat, w, a, b)) ==> #[trigger] table.resolve(
            w,
        ) == old_table.resolve(w)
}

/// One more pair is in place.
proof fn lemma_pair_placed(
    lengths: Seq<u8>,
    literals: Seq<u8>,
    old_table: Table,
    before: Table,
    table: Table,
    i: int,
    j: int,
)
    requires
        code::fits(lengths),
        0 <= i < literals.len(),
        0 <= j < literals.len(),
        pairs_placed(lengths, literals, old_table, before, i, j),
        table.width == before.width,
        table.primary@.len() == before.primary@.len(),
        table.secondary@ == before.secondary@,
        forall|w: nat|
            w < pow2(15) ==> #[trigger] table.resolve(w) == (if paired(
                lengths,
                table.width as nat,
                w,
                literals[i] as int,
                literals[j] as int,
            ) {
                pair_entry(lengths, literals[i] as int, literals[j] as int)
            } else {
                before.resolve(w)
            }),
    ensures
        pairs_placed(lengths, literals, old_table, table, i, j + 1),
{
    reveal(pairs_placed);
    let width = table.width as nat;
    let (a, b) = (literals[i] as int, literals[j] as int);
    assert forall|w: nat, p: int, q: int|
        w < pow2(15) && 0 <= p < literals.len() && 0 <= q < literals.len() && (p < i || p == i && q
            < j + 1) && #[trigger] paired(
            lengths,
            width,
            w,
            literals[p] as int,
            literals[q] as int,
        ) implies table.resolve(w) == pair_entry(
        lengths,
        literals[p] as int,
        literals[q] as int,
    ) by {
        if paired(lengths, width, w, a, b) {
            code::lemma_hit_unique(lengths, w, a, literals[p] as int);
            code::lemma_hit_unique(
                lengths,
                w / pow2(lengths[a] as nat),
                b,
                literals[q] as int,
            );
        } else {
            assert(table.resolve(w) == before.resolve(w));
        }
    }
    assert forall|w: nat|
        w < pow2(15) && (forall|x: int, y: int|
            !#[trigger] paired(lengths, width, w, x, y)) implies #[trigger] table.resolve(w)
        == old_table.resolve(w) by {
        assert(!paired(lengths, width, w, a, b));
        assert(before.resolve(w) == old_table.resolve(w));
    }
}

/// Where no further literal fits behind the `i`-th one, it is done.
proof fn lemma_pairs_done(
    lengths: Seq<u8>,
    literals: Seq<u8>,
    old_table: Table,
    table: Table,
    i: int,
    j: int,
)
    requires
        short_literals(lengths, table.width as nat, literals),
        0 <= i < literals.len(),
        0 <= j <= literals.len(),
        pairs_placed(lengths, literals, old_table, table, i, j),
        j < literals.len() ==> lengths[literals[i] as int] + lengths[literals[j] as int]
            > table.width,
    ensures
        pairs_placed(lengths, literals, old_table, table, i + 1, 0),
{
    reveal(pairs_placed);
    assert forall|w: nat, p: int, q: int|
        w < pow2(15) && 0 <= p < literals.len() && 0 <= q < literals.len() && (p < i + 1 || p == i
            + 1 && q < 0) && #[trigger] paired(
            lengths,
            table.width as nat,
            w,
            literals[p] as int,
            literals[q] as int,
        ) implies table.resolve(w) == pair_entry(
        lengths,
        literals[p] as int,
        literals[q] as int,
    ) by {
        if p == i && q >= j {
            assert(lengths[literals[j] as int] <= lengths[literals[q] as int]);
        }
    }
}

/// With every literal done, the table is packed.
proof fn lemma_all_placed(lengths: Seq<u8>, literals: Seq<u8>, old_table: Table, table: Table)
    requires
        short_literals(lengths, table.width as nat, literals),
        pairs_placed(lengths, literals, old_table, table, literals.len() as int, 0),
    ensures
        table.packs(lengths, old_table),
{
    reveal(pairs_placed);
    reveal(Table::packs);
    assert forall|w: nat, a: int, b: int|
        w < pow2(15) && #[trigger] paired(lengths, table.width as nat, w, a, b) implies table.resolve(
        w,
    ) == pair_entry(lengths, a, b) by {
        assert(literals.contains(a as u8));
        assert(literals.contains(b as u8));
        let p = choose|p: int| 0 <= p < literals.len() && literals[p] == a as u8;
        let q = choose|q: int| 0 <= q < literals.len() && literals[q] == b as u8;
        assert(paired(lengths, table.width as nat, w, literals[p] as int, literals[q] as int));
    }
}

/// Filling the places of one pair resolves exactly the windows that begin with it.
proof fn lemma_pair_filled(lengths: Seq<u8>, before: Table, table: Table, a: u8, b: u8)
    requires
        code::fits(lengths),
        before.serves(lengths),
        code::has_code(lengths, a as int),
        code::has_code(lengths, b as int),
        lengths[a as int] + lengths[b as int] <= before.width,
        table.width == before.width,
        table.primary@.len() == before.primary@.len(),
        table.secondary@ == before.secondary@,
        ({
            let word = code::written(lengths, a as int) + pow2(lengths[a as int] as nat)
                * code::written(lengths, b as int);
            let step = pow2((lengths[a as int] + lengths[b as int]) as nat);
            forall|t: int|
                0 <= t < before.primary@.len() ==> #[trigger] table.primary@[t] == (if t % step as int
                    == word {
                    pair_entry(lengths, a as int, b as int)
                } else {
                    before.primary@[t]
                })
        }),
    ensures
        table.serves(lengths),
        forall|w: nat|
            w < pow2(15) ==> #[trigger] table.resolve(w) == (if paired(
                lengths,
                table.width as nat,
                w,
                a as int,
                b as int,
            ) {
                pair_entry(lengths, a as int, b as int)
            } else {
                before.resolve(w)
            }),
{
    reveal(Table::serves);
    let width = table.width as nat;
    assert forall|w: nat| w < pow2(15) implies #[trigger] table.resolve(w) == (if paired(
        lengths,
        width,
        w,
        a as int,
        b as int,
    ) {
        pair_entry(lengths, a as int, b as int)
    } else {
        before.resolve(w)
    }) by {
        lemma_window_parts(w, width);
        lemma_pair_hits(lengths, a as int, b as int, w, width);
        let k = (w % pow2(width)) as int;
        assert(0 <= k < before.primary@.len());
    }
    assert forall|w: nat| w < pow2(15) implies truthful(lengths, w, #[trigger] table.resolve(w)) by {
        assert(truthful(lengths, w, before.resolve(w)));
    }
}

/// Replaces entries that a literal's codeword leads to by the pair of it and the literal
/// that follows, wherever both fit the primary index.
///
/// On filtered image data, whose byte distribution is dominated by a handful of short codes,
/// this resolves a large fraction of literals with one lookup instead of two.
fn pack_literals(lengths: &[u8], codes: &[u16], table: &mut Table)
    requires
        old(table).serves(lengths@),
        old(table).width <= 12,
        code::fits(lengths@),
        lengths@.len() <= 288,
        codes@.len() >= lengths@.len(),
        forall|i: int|
            0 <= i < lengths@.len() ==> #[trigger] codes@[i] == code::written(lengths@, i),
    ensures
        final(table).serves(lengths@),
        final(table).width == old(table).width,
        final(table).packs(lengths@, *old(table)),
{
    let ghost all = lengths@;
    let ghost start = *table;
    proof {
        reveal(Table::serves);
        reveal(pairs_placed);
    }
    let literals = pairable(lengths, table.width);
    let size: usize = table.primary.len();
    proof {
        bits::lemma_pow2_small();
        bits::lemma_pow2_monotonic(table.width as nat, 12);
    }
    let mut i: usize = 0;
    while i < literals.len()
        invariant
            i <= literals@.len(),
            all == lengths@,
            table.serves(all),
            table.width == start.width <= 12,
            size == table.primary@.len() <= 4096,
            code::fits(all),
            codes@.len() >= all.len(),
            forall|k: int| 0 <= k < all.len() ==> #[trigger] codes@[k] == code::written(all, k),
            short_literals(all, table.width as nat, literals@),
            pairs_placed(all, literals@, start, *table, i as int, 0),
        decreases literals.len() - i,
    {
        let first: u8 = literals[i];
        let bits1: u32 = lengths[first as usize] as u32;
        let mut j: usize = 0;
        while j < literals.len()
            invariant
                i < literals@.len(),
                j <= literals@.len(),
                all == lengths@,
                first == literals@[i as int],
                bits1 == all[first as int],
                table.serves(all),
                table.width == start.width <= 12,
                size == table.primary@.len() <= 4096,
                code::fits(all),
                codes@.len() >= all.len(),
                forall|k: int| 0 <= k < all.len() ==> #[trigger] codes@[k] == code::written(all, k),
                short_literals(all, table.width as nat, literals@),
                pairs_placed(all, literals@, start, *table, i as int, j as int),
            ensures
                j < literals@.len() ==> all[first as int] + all[literals@[j as int] as int]
                    > table.width,
            decreases literals.len() - j,
        {
            let second: u8 = literals[j];
            let both: u32 = bits1 + lengths[second as usize] as u32;
            if both > table.width {
                // The literals are ordered by length, so no later one fits either.
                break;
            }
            proof {
                bits::lemma_pow2_small();
                lemma_fill_hits(all, first as int, 0);
                lemma_fill_hits(all, second as int, 0);
                bits::lemma_pow2_monotonic(both as nat, 12);
                lemma_pow2_adds(bits1 as nat, (both - bits1) as nat);
                let c1 = code::written(all, first as int);
                let c2 = code::written(all, second as int);
                let m1 = pow2(bits1 as nat);
                let m2 = pow2((both - bits1) as nat);
                assert(c1 + m1 * c2 < m1 * m2) by (nonlinear_arith)
                    requires
                        c1 < m1,
                        c2 < m2,
                ;
                assert(m1 * c2 == c2 * m1) by (nonlinear_arith);
                vstd::bits::lemma_usize_shl_is_mul(1, both as usize);
                vstd::bits::lemma_usize_shl_is_mul(codes@[second as int] as usize, bits1 as usize);
            }
            let word: usize = codes[first as usize] as usize + ((codes[second as usize] as usize) << (
            bits1 as usize));
            let step: usize = 1usize << (both as usize);
            let entry = Entry::Literals { first, second, bits: both as u8 };
            let ghost before = *table;
            fill(&mut table.primary, 0, size, word, step, entry);
            proof {
                lemma_pair_filled(all, before, *table, first, second);
                lemma_pair_placed(all, literals@, start, before, *table, i as int, j as int);
            }
            j = j + 1;
        }
        proof {
            lemma_pairs_done(all, literals@, start, *table, i as int, j as int);
        }
        i = i + 1;
    }
    proof {
        lemma_all_placed(all, literals@, start, *table);
    }
}

/// Packing a table without pairs leaves none but those that fit.
proof fn lemma_packed(lengths: Seq<u8>, before: Table, table: Table)
    requires
        before.plain(),
        before.wf(),
        table.packs(lengths, before),
    ensures
        table.packed(lengths),
        table.width == before.width,
{
    reveal(Table::plain);
    reveal(Table::packs);
    reveal(Table::packed);
    assert forall|w: nat|
        w < pow2(15) && (forall|a: int, b: int|
            !#[trigger] paired(lengths, table.width as nat, w, a, b)) implies !(
    #[trigger] table.resolve(w) is Literals) by {
        lemma_window_parts(w, before.width as nat);
        assert(table.resolve(w) == before.resolve(w));
    }
}

/// Builds a decoding table from canonical Huffman code lengths.
///
/// Returns `false` if the lengths do not describe a complete Huffman tree. When
/// `allow_degenerate` is set (distance codes only), an alphabet with zero or one used symbol
/// is accepted, matching what real encoders emit for streams with no matches.
///
/// `double_literal` packs two consecutive literal symbols into a single primary entry
/// whenever their combined code length still fits the table.
pub fn build_table(
    lengths: &[u8],
    table: &mut Table,
    allow_degenerate: bool,
    double_literal: bool,
) -> (ok: bool)
    requires
        old(table).wf(),
        old(table).width <= 12,
        code::in_range(lengths@),
        lengths@.len() <= 288,
    ensures
        final(table).wf(),
        final(table).width == old(table).width,
        ok == (code::complete(lengths@) || (allow_degenerate && code::degenerate(lengths@))),
        ok ==> final(table).serves(lengths@),
        ok && !double_literal ==> final(table).plain(),
        ok && double_literal ==> final(table).packed(lengths@),
        ok ==> code::fits(lengths@),
{
    let ghost all = lengths@;
    let mut codes: [u16; 288] = [0; 288];
    let degenerate: bool = is_degenerate(lengths);
    if degenerate {
        let ghost s = choose|s: int| #[trigger] code::only_at(all, s);
        proof {
            code::lemma_lone(all, s);
        }
        if !allow_degenerate {
            return false;
        }
        // The codeword of a lone symbol is all zeros, as the array is.
        assert forall|i: int| 0 <= i < all.len() implies #[trigger] codes@[i] == code::written(
            all,
            i,
        ) by {
            if all[i] != 0 {
                assert(i == s);
            }
        }
    } else if !canonical_codes(lengths, &mut codes) {
        return false;
    }
    assert(code::fits(all));

    let size: usize = table.primary.len();
    let mut i: usize = 0;
    while i < size
        invariant
            i <= size == table.primary@.len(),
            table.width == old(table).width,
            size == pow2(table.width as nat),
            forall|k: int| 0 <= k < i ==> table.primary@[k] is Invalid,
        decreases size - i,
    {
        table.primary[i] = Entry::Invalid;
        i = i + 1;
    }
    table.secondary.clear();
    place_shorts(lengths, &codes, table);

    let mut s: usize = 0;
    proof {
        assert(0 * pow2((15 - table.width) as nat) == 0) by (nonlinear_arith);
    }
    while s < lengths.len()
        invariant
            s <= lengths@.len() <= 288,
            all == lengths@,
            1 <= table.width <= 12,
            table.width == old(table).width,
            table.primary@.len() == pow2(table.width as nat),
            table.secondary@.len() <= s * pow2((15 - table.width) as nat),
            code::fits(all),
            forall|k: int| 0 <= k < all.len() ==> #[trigger] codes@[k] == code::written(all, k),
            longs_placed(all, table.primary@, table.secondary@, table.width as nat, s as int),
        decreases lengths.len() - s,
    {
        proof {
            let rest = pow2((15 - table.width) as nat);
            assert((s + 1) * rest == s * rest + rest) by (nonlinear_arith);
        }
        if lengths[s] as u32 > table.width {
            place_long(lengths, &codes, table, s);
        }
        s = s + 1;
    }
    proof {
        lemma_placed_serves(all, *table);
    }
    if double_literal {
        let ghost unpacked = *table;
        pack_literals(lengths, &codes, table);
        proof {
            lemma_packed(all, unpacked, *table);
        }
    }
    proof {
        reveal(Table::serves);
    }
    true
}

} // verus!
