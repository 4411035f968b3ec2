//! Adler-32, as used by the zlib wrapper around the DEFLATE stream inside `IDAT`.
//!
//! The checksum is a pair of sums modulo 65521: one of the bytes, one of the first sum after
//! every byte. The reduction is deferred until the accumulators have taken in a block of
//! bytes.

use vstd::prelude::*;
use vstd::arithmetic::div_mod::*;

verus! {

/// Largest prime below 65536; the modulus for both halves of the sum.
const BASE: u64 = 65521;

/// Number of bytes that are accumulated before the sums are reduced.
const NMAX: usize = 5552;

/// The two sums after the bytes of `data` were added to `start`.
pub open spec fn fold(start: (nat, nat), data: Seq<u8>) -> (nat, nat)
    decreases data.len(),
{
    if data.len() == 0 {
        start
    } else {
        let before = fold(start, data.drop_last());
        let a = (before.0 + data.last()) as nat % 65521;
        (a, (before.1 + a) % 65521)
    }
}

/// The sums over no bytes: the first one starts at one rather than zero.
pub open spec fn initial() -> (nat, nat) {
    (1, 0)
}

/// Both sums as one number.
pub open spec fn joined(sums: (nat, nat)) -> nat {
    sums.1 * 65536 + sums.0
}

/// The Adler-32 checksum of `data`.
pub open spec fn checksum(data: Seq<u8>) -> nat {
    joined(fold(initial(), data))
}

/// Any split into calls gives the same result.
pub proof fn law_split_anywhere(start: (nat, nat), a: Seq<u8>, b: Seq<u8>)
    ensures
        fold(start, a + b) == fold(fold(start, a), b),
    decreases b.len(),
{
    if b.len() == 0 {
        assert(a + b =~= a);
    } else {
        assert((a + b).drop_last() =~= a + b.drop_last());
        law_split_anywhere(start, a, b.drop_last());
    }
}

pub proof fn lemma_fold_bound(start: (nat, nat), data: Seq<u8>)
    requires
        start.0 < 65521,
        start.1 < 65521,
    ensures
        fold(start, data).0 < 65521,
        fold(start, data).1 < 65521,
    decreases data.len(),
{
}

/// The checksum is a 32-bit number.
pub proof fn lemma_checksum_bound(data: Seq<u8>)
    ensures
        checksum(data) <= u32::MAX,
{
    lemma_fold_bound(initial(), data);
}

/// Incremental Adler-32 hasher.
#[derive(Clone, Copy, Debug)]
pub struct Adler32 {
    a: u32,
    b: u32,
}

impl Default for Adler32 {
    fn default() -> (hasher: Self)
        ensures
            hasher.sums() == initial(),
    {
        Self::new()
    }
}

impl Adler32 {
    #[verifier::type_invariant]
    spec fn reduced(self) -> bool {
        self.a < 65521 && self.b < 65521
    }

    /// The two sums over everything fed in so far.
    pub closed spec fn sums(&self) -> (nat, nat) {
        (self.a as nat, self.b as nat)
    }

    /// A checksum over no bytes, which Adler-32 defines as 1 rather than 0.
    pub fn new() -> (hasher: Self)
        ensures
            hasher.sums() == initial(),
    {
        Self { a: 1, b: 0 }
    }

    /// The checksum of everything fed in so far.
    pub fn finish(&self) -> (checksum: u32)
        ensures
            checksum == joined(self.sums()),
    {
        proof {
            use_type_invariant(self);
        }
        self.b * 65536 + self.a
    }

    /// Folds `data` into the running checksum. Any split into calls gives the same result.
    pub fn update(&mut self, data: &[u8])
        ensures
            final(self).sums() == fold(old(self).sums(), data@),
    {
        proof {
            use_type_invariant(&*self);
        }
        let (a, b) = update_portable(self.a, self.b, data);
        *self = Self { a, b };
    }
}

/// Scalar implementation, reducing once per block.
pub fn update_portable(a_in: u32, b_in: u32, data: &[u8]) -> (sums: (u32, u32))
    requires
        a_in < 65521,
        b_in < 65521,
    ensures
        sums.0 < 65521,
        sums.1 < 65521,
        (sums.0 as nat, sums.1 as nat) == fold((a_in as nat, b_in as nat), data@),
{
    let ghost start = (a_in as nat, b_in as nat);
    let mut a: u64 = a_in as u64;
    let mut b: u64 = b_in as u64;
    let mut pos: usize = 0;
    assert(data@.take(0) =~= Seq::<u8>::empty());
    while pos < data.len()
        invariant
            pos <= data@.len(),
            a < BASE,
            b < BASE,
            (a as nat, b as nat) == fold(start, data@.take(pos as int)),
        decreases data.len() - pos,
    {
        let end: usize = if data.len() - pos > NMAX {
            pos + NMAX
        } else {
            data.len()
        };
        let ghost from = pos;
        while pos < end
            invariant
                from <= pos <= end <= data@.len(),
                end - from <= NMAX,
                a <= 65520 + 255 * (pos - from),
                b <= 65520 + 1481535 * (pos - from),
                a as nat % 65521 == fold(start, data@.take(pos as int)).0,
                b as nat % 65521 == fold(start, data@.take(pos as int)).1,
            decreases end - pos,
        {
            proof {
                let part = data@.take(pos + 1);
                assert(part.drop_last() =~= data@.take(pos as int));
                assert(part.last() == data@[pos as int]);
                let x = data@[pos as int] as int;
                lemma_add_mod_noop(a as int, x, 65521);
                lemma_add_mod_noop(a as int % 65521, x, 65521);
                lemma_mod_twice(a as int, 65521);
                lemma_add_mod_noop(b as int, a + x, 65521);
                let a1 = (a + x) % 65521;
                lemma_add_mod_noop(b as int % 65521, a1, 65521);
                lemma_mod_twice(b as int, 65521);
                lemma_mod_twice(a + x, 65521);
            }
            a = a + data[pos] as u64;
            b = b + a;
            pos = pos + 1;
        }
        a = a % BASE;
        b = b % BASE;
    }
    assert(data@.take(pos as int) =~= data@);
    (a as u32, b as u32)
}

/// Computes the Adler-32 of `data` in one shot.
pub fn adler32(data: &[u8]) -> (result: u32)
    ensures
        result == checksum(data@),
{
    let mut hasher = Adler32::new();
    hasher.update(data);
    hasher.finish()
}

} // verus!
