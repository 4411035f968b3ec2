//! CRC-32/ISO-HDLC, as used by PNG chunk checksums.
//!
//! The implementation is slice-by-16, which consumes sixteen input bytes per iteration using
//! sixteen independent table lookups.

use vstd::prelude::*;

verus! {

/// One step of the division by the reflected polynomial (`0x04C11DB7` reversed).
pub open spec fn step(x: u32) -> u32 {
    if x & 1 == 1 {
        (x >> 1) ^ 0xEDB8_8320
    } else {
        x >> 1
    }
}

/// `n` steps.
pub open spec fn steps(x: u32, n: nat) -> u32
    decreases n,
{
    if n == 0 {
        x
    } else {
        step(steps(x, (n - 1) as nat))
    }
}

/// The register after the bytes of `data`, one byte at a time.
pub open spec fn fold(state: u32, data: Seq<u8>) -> u32
    decreases data.len(),
{
    if data.len() == 0 {
        state
    } else {
        steps(fold(state, data.drop_last()) ^ data.last() as u32, 8)
    }
}

/// The CRC-32 of `data`.
pub open spec fn checksum(data: Seq<u8>) -> u32 {
    !fold(0xffff_ffff, data)
}

/// Any split into calls gives the same result.
pub proof fn law_split_anywhere(state: u32, a: Seq<u8>, b: Seq<u8>)
    ensures
        fold(state, a + b) == fold(fold(state, a), b),
    decreases b.len(),
{
    if b.len() == 0 {
        assert(a + b =~= a);
    } else {
        assert((a + b).drop_last() =~= a + b.drop_last());
        law_split_anywhere(state, a, b.drop_last());
    }
}

// ---------------------------------------------------------------------------------------
// Linearity
// ---------------------------------------------------------------------------------------

proof fn lemma_step_linear(x: u32, y: u32)
    ensures
        step(x ^ y) == step(x) ^ step(y),
{
    assert(step(x ^ y) == step(x) ^ step(y)) by (bit_vector);
}

/// Sums go through the division one by one.
proof fn lemma_steps_linear(x: u32, y: u32, n: nat)
    ensures
        steps(x ^ y, n) == steps(x, n) ^ steps(y, n),
    decreases n,
{
    if n > 0 {
        let m = (n - 1) as nat;
        lemma_steps_linear(x, y, m);
        lemma_step_linear(steps(x, m), steps(y, m));
    }
}

proof fn lemma_steps_add(x: u32, a: nat, b: nat)
    ensures
        steps(x, a + b) == steps(steps(x, a), b),
    decreases b,
{
    if b > 0 {
        lemma_steps_add(x, a, (b - 1) as nat);
        assert((a + b - 1) as nat == a + (b - 1) as nat);
    }
}

/// Eight steps over a register whose low byte is zero just shift it.
proof fn lemma_steps_shift(y: u32)
    requires
        y <= 0xff_ffff,
    ensures
        steps(y << 8, 8) == y,
{
    assert(step(y << 8) == y << 7) by (bit_vector)
        requires
            y <= 0xff_ffff,
    ;
    assert(step(y << 7) == y << 6) by (bit_vector)
        requires
            y <= 0xff_ffff,
    ;
    assert(step(y << 6) == y << 5) by (bit_vector)
        requires
            y <= 0xff_ffff,
    ;
    assert(step(y << 5) == y << 4) by (bit_vector)
        requires
            y <= 0xff_ffff,
    ;
    assert(step(y << 4) == y << 3 && step(y << 3) == y << 2 && step(y << 2) == y << 1 && step(
        y << 1,
    ) == y) by (bit_vector)
        requires
            y <= 0xff_ffff,
    ;
    reveal_with_fuel(steps, 9);
}

/// One byte through a table of the low bytes.
proof fn lemma_byte_step(x: u32)
    ensures
        steps(x, 8) == (x >> 8) ^ steps(x & 0xff, 8),
        x & 0xff <= 255,
{
    let high = x >> 8;
    let low = x & 0xff;
    assert(x == (high << 8) ^ low && high <= 0xff_ffff && low <= 255) by (bit_vector)
        requires
            high == x >> 8,
            low == x & 0xff,
    ;
    lemma_steps_linear(high << 8, low, 8);
    lemma_steps_shift(high);
}

/// The register split into its bytes.
proof fn lemma_split_bytes(x: u32)
    ensures
        x & 0xff <= 255,
        (x >> 8) & 0xff <= 255,
        (x >> 16) & 0xff <= 255,
        x >> 24 <= 255,
        x == (x & 0xff) ^ (((x >> 8) & 0xff) << 8) ^ (((x >> 16) & 0xff) << 16) ^ ((x >> 24) << 24),
{
    assert(x & 0xff <= 255 && (x >> 8) & 0xff <= 255 && (x >> 16) & 0xff <= 255 && x >> 24 <= 255
        && x == (x & 0xff) ^ (((x >> 8) & 0xff) << 8) ^ (((x >> 16) & 0xff) << 16) ^ ((x >> 24)
        << 24)) by (bit_vector);
}

/// A byte that stands `k` bytes up in the register needs that many bytes of steps fewer.
proof fn lemma_steps_up(b: u32, n: nat)
    requires
        b <= 255,
    ensures
        n >= 8 ==> steps(b << 8, n) == steps(b, (n - 8) as nat),
        n >= 16 ==> steps(b << 16, n) == steps(b, (n - 16) as nat),
        n >= 24 ==> steps(b << 24, n) == steps(b, (n - 24) as nat),
{
    assert(b << 16 == (b << 8) << 8 && b << 24 == (b << 16) << 8 && b << 8 <= 0xff_ffff && b << 16
        <= 0xff_ffff) by (bit_vector)
        requires
            b <= 255,
    ;
    if n >= 8 {
        lemma_steps_shift(b);
        lemma_steps_add(b << 8, 8, (n - 8) as nat);
    }
    if n >= 16 {
        lemma_steps_shift(b << 8);
        lemma_steps_add(b << 16, 8, (n - 8) as nat);
        lemma_steps_add(b << 8, 8, (n - 16) as nat);
        lemma_steps_shift(b);
    }
    if n >= 24 {
        lemma_steps_shift(b << 16);
        lemma_steps_add(b << 24, 8, (n - 8) as nat);
        lemma_steps_add(b << 16, 8, (n - 16) as nat);
        lemma_steps_shift(b << 8);
        lemma_steps_add(b << 8, 8, (n - 24) as nat);
        lemma_steps_shift(b);
    }
}

/// A register through `n` steps, byte by byte.
proof fn lemma_steps_word(x: u32, n: nat)
    requires
        n >= 24,
    ensures
        steps(x, n) == steps(x & 0xff, n) ^ steps((x >> 8) & 0xff, (n - 8) as nat) ^ steps(
            (x >> 16) & 0xff,
            (n - 16) as nat,
        ) ^ steps(x >> 24, (n - 24) as nat),
{
    lemma_split_bytes(x);
    let b0 = x & 0xff;
    let b1 = (x >> 8) & 0xff;
    let b2 = (x >> 16) & 0xff;
    let b3 = x >> 24;
    lemma_steps_linear(b0 ^ (b1 << 8) ^ (b2 << 16), b3 << 24, n);
    lemma_steps_linear(b0 ^ (b1 << 8), b2 << 16, n);
    lemma_steps_linear(b0, b1 << 8, n);
    lemma_steps_up(b1, n);
    lemma_steps_up(b2, n);
    lemma_steps_up(b3, n);
}

/// Four bytes as a number, least significant byte first.
pub open spec fn le_word(data: Seq<u8>, i: int) -> u32 {
    (data[i] as u32) ^ ((data[i + 1] as u32) << 8) ^ ((data[i + 2] as u32) << 16) ^ ((data[i
        + 3] as u32) << 24)
}

/// Four bytes at once are their word at once.
proof fn lemma_fold_word(state: u32, data: Seq<u8>, i: int)
    requires
        0 <= i,
        i + 4 <= data.len(),
    ensures
        fold(state, data.subrange(i, i + 4)) == steps(state ^ le_word(data, i), 32),
{
    let four = data.subrange(i, i + 4);
    let d0 = data[i] as u32;
    let d1 = data[i + 1] as u32;
    let d2 = data[i + 2] as u32;
    let d3 = data[i + 3] as u32;
    let f1 = four.drop_last();
    let f2 = f1.drop_last();
    let f3 = f2.drop_last();
    assert(f3.drop_last().len() == 0);
    assert(f3.last() == data[i] && f2.last() == data[i + 1] && f1.last() == data[i + 2]
        && four.last() == data[i + 3]);
    let s1 = steps(state ^ d0, 8);
    let s2 = steps(s1 ^ d1, 8);
    let s3 = steps(s2 ^ d2, 8);
    assert(fold(state, f3.drop_last()) == state);
    assert(fold(state, f3) == s1);
    assert(fold(state, f2) == s2);
    assert(fold(state, f1) == s3);
    assert(fold(state, four) == steps(s3 ^ d3, 8));
    // Each later byte joins in after as many steps as its place in the word stands for.
    lemma_steps_up(d1, 8);
    lemma_steps_up(d2, 16);
    lemma_steps_up(d3, 24);
    assert(steps(d1, 0) == d1 && steps(d2, 0) == d2 && steps(d3, 0) == d3);
    let w1 = state ^ d0 ^ (d1 << 8);
    let w2 = w1 ^ (d2 << 16);
    let w3 = w2 ^ (d3 << 24);
    lemma_steps_linear(state ^ d0, d1 << 8, 8);
    assert(s1 ^ d1 == steps(w1, 8));
    lemma_steps_add(w1, 8, 8);
    lemma_steps_linear(w1, d2 << 16, 16);
    assert(s2 ^ d2 == steps(w2, 16));
    lemma_steps_add(w2, 16, 8);
    lemma_steps_linear(w2, d3 << 24, 24);
    assert(s3 ^ d3 == steps(w3, 24));
    lemma_steps_add(w3, 24, 8);
    let e1 = d1 << 8;
    let e2 = d2 << 16;
    let e3 = d3 << 24;
    assert(state ^ d0 ^ e1 ^ e2 ^ e3 == state ^ (d0 ^ e1 ^ e2 ^ e3)) by (bit_vector);
}

// ---------------------------------------------------------------------------------------
// Tables
// ---------------------------------------------------------------------------------------

/// Whether `tables` holds the sixteen tables one after the other: entry `i` of table `t`
/// gives the contribution of the byte `i` that still has `t` further bytes shifted in after
/// it.
pub open spec fn tabulated(tables: Seq<u32>) -> bool {
    &&& tables.len() == 4096
    &&& forall|t: int, i: int|
        0 <= t < 16 && 0 <= i < 256 ==> #[trigger] tables[256 * t + i] == steps(
            i as u32,
            (8 * t + 8) as nat,
        )
}

/// The 16 lookup tables used by the slice-by-16 algorithm.
pub fn build_tables() -> (tables: Vec<u32>)
    ensures
        tabulated(tables@),
{
    let mut tables: Vec<u32> = Vec::with_capacity(4096);
    let mut i: u32 = 0;
    while i < 256
        invariant
            i <= 256,
            tables@.len() == i,
            forall|k: int| 0 <= k < i ==> #[trigger] tables@[k] == steps(k as u32, 8),
        decreases 256 - i,
    {
        let mut crc: u32 = i;
        let mut bit: u32 = 0;
        while bit < 8
            invariant
                bit <= 8,
                crc == steps(i, bit as nat),
            decreases 8 - bit,
        {
            crc = if crc & 1 == 1 {
                (crc >> 1) ^ 0xEDB8_8320
            } else {
                crc >> 1
            };
            bit = bit + 1;
        }
        tables.push(crc);
        i = i + 1;
    }
    let mut t: usize = 1;
    while t < 16
        invariant
            1 <= t <= 16,
            tables@.len() == 256 * t,
            forall|u: int, k: int|
                0 <= u < t && 0 <= k < 256 ==> #[trigger] tables@[256 * u + k] == steps(
                    k as u32,
                    (8 * u + 8) as nat,
                ),
        decreases 16 - t,
    {
        let mut k: usize = 0;
        while k < 256
            invariant
                1 <= t < 16,
                k <= 256,
                tables@.len() == 256 * t + k,
                forall|u: int, j: int|
                    0 <= u < t && 0 <= j < 256 ==> #[trigger] tables@[256 * u + j] == steps(
                        j as u32,
                        (8 * u + 8) as nat,
                    ),
                forall|j: int|
                    0 <= j < k ==> #[trigger] tables@[256 * t + j] == steps(
                        j as u32,
                        (8 * t + 8) as nat,
                    ),
            decreases 256 - k,
        {
            let previous: u32 = tables[256 * (t - 1) + k];
            proof {
                assert(tables@[256 * (t - 1) + k] == steps(k as u32, (8 * (t - 1) + 8) as nat));
                lemma_byte_step(previous);
                assert(tables@[256 * 0 + (previous & 0xff)] == steps(previous & 0xff, 8));
                lemma_steps_add(k as u32, (8 * t) as nat, 8);
            }
            let entry: u32 = (previous >> 8) ^ tables[(previous & 0xff) as usize];
            let ghost before = tables@;
            tables.push(entry);
            proof {
                assert forall|u: int, j: int| 0 <= u < t && 0 <= j < 256 implies #[trigger] tables@[256
                    * u + j] == steps(j as u32, (8 * u + 8) as nat) by {
                    assert(before[256 * u + j] == steps(j as u32, (8 * u + 8) as nat));
                }
            }
            k = k + 1;
        }
        t = t + 1;
    }
    tables
}

/// Four bytes as a number, least significant byte first.
fn read_word(data: &[u8], i: usize) -> (word: u32)
    requires
        i + 4 <= data@.len(),
    ensures
        word == le_word(data@, i as int),
{
    (data[i] as u32) ^ ((data[i + 1] as u32) << 8) ^ ((data[i + 2] as u32) << 16) ^ ((data[i
        + 3] as u32) << 24)
}

/// The contribution of a word that still has `rest` further bytes shifted in after it.
fn word_step(tables: &Vec<u32>, word: u32, rest: usize) -> (state: u32)
    requires
        tabulated(tables@),
        rest <= 12,
    ensures
        state == steps(word, (8 * rest + 32) as nat),
{
    proof {
        lemma_split_bytes(word);
        lemma_steps_word(word, (8 * rest + 32) as nat);
        assert(tables@[256 * (rest + 3) + (word & 0xff)] == steps(
            word & 0xff,
            (8 * (rest + 3) + 8) as nat,
        ));
        assert(tables@[256 * (rest + 2) + ((word >> 8) & 0xff)] == steps(
            (word >> 8) & 0xff,
            (8 * (rest + 2) + 8) as nat,
        ));
        assert(tables@[256 * (rest + 1) + ((word >> 16) & 0xff)] == steps(
            (word >> 16) & 0xff,
            (8 * (rest + 1) + 8) as nat,
        ));
        assert(tables@[256 * rest + (word >> 24)] == steps(word >> 24, (8 * rest + 8) as nat));
    }
    tables[256 * (rest + 3) + (word & 0xff) as usize] ^ tables[256 * (rest + 2) + ((word >> 8)
        & 0xff) as usize] ^ tables[256 * (rest + 1) + ((word >> 16) & 0xff) as usize] ^ tables[256
        * rest + (word >> 24) as usize]
}

/// Sixteen bytes at once.
proof fn lemma_fold_chunk(state: u32, data: Seq<u8>, i: int)
    requires
        0 <= i,
        i + 16 <= data.len(),
    ensures
        fold(state, data.subrange(i, i + 16)) == steps(state ^ le_word(data, i), 128) ^ steps(
            le_word(data, i + 4),
            96,
        ) ^ steps(le_word(data, i + 8), 64) ^ steps(le_word(data, i + 12), 32),
{
    let b = le_word(data, i + 4);
    let c = le_word(data, i + 8);
    let d = le_word(data, i + 12);
    let p0 = data.subrange(i, i + 4);
    let p1 = data.subrange(i + 4, i + 8);
    let p2 = data.subrange(i + 8, i + 12);
    let p3 = data.subrange(i + 12, i + 16);
    assert(data.subrange(i, i + 16) =~= p0 + p1 + p2 + p3);
    law_split_anywhere(state, p0 + p1 + p2, p3);
    law_split_anywhere(state, p0 + p1, p2);
    law_split_anywhere(state, p0, p1);
    let a = state ^ le_word(data, i);
    let s1 = steps(a, 32);
    lemma_fold_word(state, data, i);
    lemma_fold_word(s1, data, i + 4);
    lemma_steps_linear(s1, b, 32);
    lemma_steps_add(a, 32, 32);
    let s2 = steps(a, 64) ^ steps(b, 32);
    lemma_fold_word(s2, data, i + 8);
    lemma_steps_linear(s2, c, 32);
    lemma_steps_linear(steps(a, 64), steps(b, 32), 32);
    lemma_steps_add(a, 64, 32);
    lemma_steps_add(b, 32, 32);
    let s3 = steps(a, 96) ^ steps(b, 64) ^ steps(c, 32);
    lemma_fold_word(s3, data, i + 12);
    lemma_steps_linear(s3, d, 32);
    lemma_steps_linear(steps(a, 96) ^ steps(b, 64), steps(c, 32), 32);
    lemma_steps_linear(steps(a, 96), steps(b, 64), 32);
    lemma_steps_add(a, 96, 32);
    lemma_steps_add(b, 64, 32);
    lemma_steps_add(c, 32, 32);
}

/// Folds `data` into the register, sixteen bytes at a time.
pub fn update_portable(tables: &Vec<u32>, state: u32, data: &[u8]) -> (result: u32)
    requires
        tabulated(tables@),
    ensures
        result == fold(state, data@),
{
    let mut crc: u32 = state;
    let mut i: usize = 0;
    assert(data@.take(0) =~= Seq::<u8>::empty());
    while data.len() - i >= 16
        invariant
            i <= data@.len(),
            tabulated(tables@),
            crc == fold(state, data@.take(i as int)),
        decreases data.len() - i,
    {
        proof {
            lemma_fold_chunk(crc, data@, i as int);
            law_split_anywhere(state, data@.take(i as int), data@.subrange(i as int, i + 16));
            assert(data@.take(i as int) + data@.subrange(i as int, i + 16) =~= data@.take(i + 16));
        }
        // The first four bytes are mixed into the running state; the remaining twelve are
        // looked up directly since nothing precedes them.
        let a: u32 = crc ^ read_word(data, i);
        crc = word_step(tables, a, 12) ^ word_step(tables, read_word(data, i + 4), 8) ^ word_step(
            tables,
            read_word(data, i + 8),
            4,
        ) ^ word_step(tables, read_word(data, i + 12), 0);
        i = i + 16;
    }
    while i < data.len()
        invariant
            i <= data@.len(),
            tabulated(tables@),
            crc == fold(state, data@.take(i as int)),
        decreases data.len() - i,
    {
        let mixed: u32 = crc ^ data[i] as u32;
        proof {
            let part = data@.take(i + 1);
            assert(part.drop_last() =~= data@.take(i as int));
            assert(part.last() == data@[i as int]);
            lemma_byte_step(mixed);
            assert(tables@[256 * 0 + (mixed & 0xff)] == steps(mixed & 0xff, 8));
        }
        crc = (mixed >> 8) ^ tables[(mixed & 0xff) as usize];
        i = i + 1;
    }
    assert(data@.take(i as int) =~= data@);
    crc
}

/// Incremental CRC-32 hasher.
#[derive(Debug)]
pub struct Crc32 {
    state: u32,
    tables: Vec<u32>,
}

impl Clone for Crc32 {
    fn clone(&self) -> (copy: Self)
        ensures
            copy.register() == self.register(),
    {
        proof {
            use_type_invariant(self);
        }
        let tables: Vec<u32> = self.tables.clone();
        assert(tables@ =~= self.tables@);
        Self { state: self.state, tables }
    }
}

impl Default for Crc32 {
    fn default() -> (hasher: Self)
        ensures
            hasher.register() == 0xffff_ffffu32,
    {
        Self::new()
    }
}

impl Crc32 {
    #[verifier::type_invariant]
    spec fn ready(self) -> bool {
        tabulated(self.tables@)
    }

    /// The register after everything fed in so far.
    pub closed spec fn register(&self) -> u32 {
        self.state
    }

    /// A checksum over no bytes.
    pub fn new() -> (hasher: Self)
        ensures
            hasher.register() == 0xffff_ffffu32,
    {
        Self { state: 0xffff_ffff, tables: build_tables() }
    }

    /// Starts over with no bytes, keeping the lookup tables.
    pub fn reset(&mut self)
        ensures
            final(self).register() == 0xffff_ffffu32,
    {
        proof {
            use_type_invariant(&*self);
        }
        self.state = 0xffff_ffff;
    }

    /// Folds `data` into the running checksum. Any split into calls gives the same result.
    pub fn update(&mut self, data: &[u8])
        ensures
            final(self).register() == fold(old(self).register(), data@),
    {
        proof {
            use_type_invariant(&*self);
        }
        self.state = update_portable(&self.tables, self.state, data);
    }

    /// The checksum of everything fed in so far.
    pub fn finish(&self) -> (checksum: u32)
        ensures
            checksum == !self.register(),
    {
        !self.state
    }
}

/// Computes the CRC-32 of `data` in one shot.
pub fn crc32(data: &[u8]) -> (result: u32)
    ensures
        result == checksum(data@),
{
    let mut hasher = Crc32::new();
    hasher.update(data);
    hasher.finish()
}

} // verus!
