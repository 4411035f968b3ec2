//! Construction of canonical Huffman codes for the encoder.
//!
//! DEFLATE describes a code purely by its symbol lengths, so the encoder's job is to turn
//! symbol frequencies into a set of lengths that obeys the format's 15-bit ceiling, forms a
//! complete tree, and is optimal as long as the ceiling does not get in the way: see
//! [`crate::optimal`].

use vstd::prelude::*;
use vstd::arithmetic::power2::*;
use crate::bits;
use crate::code;
use crate::tree;

verus! {

/// Reverses the low `count` bits of `value`.
///
/// Huffman codes go into the stream most-significant bit first, while everything else in
/// DEFLATE is least-significant bit first. Reversing once here lets the bit writer stay
/// uniformly little-endian.
pub fn reverse_bits(value: u16, count: u32) -> (result: u16)
    requires
        1 <= count <= 16,
    ensures
        result == bits::reversed(count as nat, value as nat),
{
    let mut result: u16 = 0;
    let mut rest: u16 = value;
    let mut done: u32 = 0;
    proof {
        bits::lemma_pow2_zero(value as nat);
    }
    while done < count
        invariant
            done <= count <= 16,
            result == bits::reversed(done as nat, value as nat),
            rest == value as nat / pow2(done as nat),
        decreases count - done,
    {
        proof {
            bits::lemma_pow2_small();
            bits::lemma_pow2_monotonic(done as nat + 1, 16);
            bits::lemma_reversed_append(done as nat, value as nat);
            bits::lemma_reversed_bound(done as nat + 1, value as nat);
            bits::lemma_pow2_step(done as nat);
            vstd::arithmetic::div_mod::lemma_div_denominator(
                value as int,
                pow2(done as nat) as int,
                2,
            );
        }
        result = result * 2 + rest % 2;
        rest = rest / 2;
        done = done + 1;
    }
    result
}

/// Assigns canonical codes to symbols from their lengths, pre-reversed for the bit writer.
///
/// Returns `false`, and leaves `codes` alone, if the lengths do not form a complete tree.
pub fn canonical_codes(lengths: &[u8], codes: &mut [u16]) -> (ok: bool)
    requires
        code::in_range(lengths@),
        lengths@.len() <= old(codes)@.len(),
        lengths@.len() <= u16::MAX,
    ensures
        ok == code::complete(lengths@),
        final(codes)@.len() == old(codes)@.len(),
        ok ==> forall|i: int|
            0 <= i < lengths@.len() ==> #[trigger] final(codes)@[i] == code::written(lengths@, i),
        forall|i: int|
            lengths@.len() <= i < old(codes)@.len() ==> final(codes)@[i] == old(codes)@[i],
        !ok ==> final(codes)@ == old(codes)@,
{
    let ghost all = lengths@;
    let mut count: [u16; 16] = [0; 16];
    let mut i: usize = 0;
    while i < lengths.len()
        invariant
            i <= lengths@.len() <= u16::MAX,
            all == lengths@,
            code::in_range(all),
            forall|l: int| 0 <= l < 16 ==> #[trigger] count@[l] == code::count(all.take(i as int), l),
        decreases lengths.len() - i,
    {
        let length: usize = lengths[i] as usize;
        proof {
            code::lemma_count_monotonic(all, i as int, i as int, length as int);
            assert forall|l: int| 0 <= l < 16 implies code::count(all.take(i + 1), l) == code::count(
                all.take(i as int),
                l,
            ) + if all[i as int] == l {
                1nat
            } else {
                0nat
            } by {
                code::lemma_count_step(all, i as int, l);
            }
        }
        count[length] = count[length] + 1;
        i = i + 1;
    }
    assert(all.take(i as int) =~= all);
    count[0] = 0;

    let mut next: [u32; 16] = [0; 16];
    let mut assigned: u32 = 0;
    let mut width: usize = 1;
    while width < 16
        invariant
            1 <= width <= 16,
            all == lengths@,
            all.len() <= u16::MAX,
            count@[0] == 0,
            forall|l: int| 1 <= l < 16 ==> #[trigger] count@[l] == code::count(all, l),
            assigned == (if width == 1 {
                0
            } else {
                code::first_code(all, (width - 1) as nat)
            }),
            forall|l: int| 1 <= l < width ==> #[trigger] next@[l] == code::first_code(all, l as nat),
        decreases 16 - width,
    {
        proof {
            code::lemma_used_size(all, width as nat);
            let n = all.len();
            assert(n * (pow2(width as nat) - 1) <= 65535 * 32767) by (nonlinear_arith)
                requires
                    n <= 65535,
                    1 <= pow2(width as nat) <= 32768,
            ;
            if width > 1 {
                assert(count@[width - 1] == code::count(all, width - 1));
            }
            assert(code::first_code(all, width as nat) <= code::used(all, width as nat));
            assert(2 * (assigned + count@[width - 1]) == code::first_code(all, width as nat));
        }
        assigned = (assigned + count[width - 1] as u32) * 2;
        next[width] = assigned;
        width = width + 1;
    }
    proof {
        code::lemma_used_size(all, 15);
        let n = all.len();
        assert(n * (pow2(15) - 1) <= 65535 * 32767) by (nonlinear_arith)
            requires
                n <= 65535,
                1 <= pow2(15) <= 32768,
        ;
        bits::lemma_pow2_small();
    }
    let total: u32 = assigned + count[15] as u32;
    if total != 32768 {
        return false;
    }
    assert(code::fits(all));

    let mut symbol: usize = 0;
    while symbol < lengths.len()
        invariant
            symbol <= lengths@.len() <= codes@.len(),
            codes@.len() == old(codes)@.len(),
            all == lengths@,
            code::fits(all),
            forall|l: int|
                1 <= l < 16 ==> #[trigger] next@[l] == code::first_code(all, l as nat) + code::count(
                    all.take(symbol as int),
                    l,
                ),
            forall|j: int| 0 <= j < symbol ==> #[trigger] codes@[j] == code::written(all, j),
            forall|j: int| lengths@.len() <= j < codes@.len() ==> codes@[j] == old(codes)@[j],
        decreases lengths.len() - symbol,
    {
        let length: usize = lengths[symbol] as usize;
        proof {
            assert forall|l: int| 1 <= l < 16 implies code::count(all.take(symbol + 1), l)
                == code::count(all.take(symbol as int), l) + if all[symbol as int] == l {
                1nat
            } else {
                0nat
            } by {
                code::lemma_count_step(all, symbol as int, l);
            }
            if length > 0 {
                code::lemma_codeword_bound(all, symbol as int);
                bits::lemma_pow2_small();
                bits::lemma_pow2_monotonic(length as nat, 15);
            }
        }
        if length != 0 {
            let word: u32 = next[length];
            next[length] = word + 1;
            codes[symbol] = reverse_bits(word as u16, length as u32);
        } else {
            codes[symbol] = 0;
        }
        symbol = symbol + 1;
    }
    true
}

/// Scratch space for building a code, sized for the largest DEFLATE alphabet.
///
/// Kept in the encoder so that building a code for every block costs no allocation.
#[derive(Debug)]
pub struct Builder {
    /// Used symbols, sorted by frequency ascending.
    order: [u16; 288],
    /// Frequencies of the tree's leaves followed by its internal nodes.
    weights: [u64; 576],
    /// Index of each node's parent, for walking a leaf back to the root.
    parents: [u16; 576],
}

impl Default for Builder {
    fn default() -> (builder: Self)
        ensures
            builder.blank(),
    {
        Self::new()
    }
}

/// The first `n` entries of a scratch array, as symbols.
spec fn symbols_of(order: Seq<u16>, n: int) -> Seq<int> {
    Seq::new(n as nat, |i: int| order[i] as int)
}

/// A histogram of code lengths as plain numbers.
spec fn plain(hist: Seq<u32>) -> Seq<int> {
    Seq::new(hist.len(), |i: int| hist[i] as int)
}

impl Builder {
    /// Whether the scratch arrays hold nothing but zeros.
    pub closed spec fn blank(&self) -> bool {
        &&& self.order@ == Seq::new(288, |i: int| 0u16)
        &&& self.weights@ == Seq::new(576, |i: int| 0u64)
        &&& self.parents@ == Seq::new(576, |i: int| 0u16)
    }

    /// A builder with its scratch arrays allocated, ready to fit its first code.
    pub fn new() -> (builder: Self)
        ensures
            builder.blank(),
    {
        let builder = Self { order: [0; 288], weights: [0; 576], parents: [0; 576] };
        assert(builder.order@ =~= Seq::new(288, |i: int| 0u16));
        assert(builder.weights@ =~= Seq::new(576, |i: int| 0u64));
        assert(builder.parents@ =~= Seq::new(576, |i: int| 0u16));
        builder
    }

    /// Ranks the used symbols by frequency and returns how many there are.
    fn rank(&mut self, frequencies: &[u32]) -> (used: usize)
        requires
            frequencies@.len() <= 288,
        ensures
            used <= frequencies@.len(),
            symbols_of(final(self).order@, used as int) == tree::ranked(
                frequencies@,
                frequencies@.len(),
            ),
    {
        let mut used: usize = 0;
        let mut symbol: usize = 0;
        assert(symbols_of(self.order@, 0) =~= Seq::<int>::empty());
        while symbol < frequencies.len()
            invariant
                symbol <= frequencies@.len() <= 288,
                used <= symbol,
                symbols_of(self.order@, used as int) == tree::ranked(frequencies@, symbol as nat),
            decreases frequencies.len() - symbol,
        {
            let frequency: u32 = frequencies[symbol];
            if frequency > 0 {
                let ghost ranking = tree::ranked(frequencies@, symbol as nat);
                let ghost target = tree::insert(frequencies@, ranking, symbol as int);
                proof {
                    tree::lemma_ranked(frequencies@, symbol as nat);
                    assert forall|i: int| 0 <= i < used implies #[trigger] self.order@[i] < symbol by {
                        assert(symbols_of(self.order@, used as int)[i] == ranking[i]);
                    }
                }
                let mut at: usize = used;
                assert(ranking.take(used as int) =~= ranking);
                assert(ranking.skip(used as int) =~= Seq::<int>::empty());
                assert(target =~= target + ranking.skip(used as int));
                while at > 0 && frequencies[self.order[at - 1] as usize] > frequency
                    invariant
                        symbol < frequencies@.len() <= 288,
                        at <= used <= symbol,
                        frequency == frequencies@[symbol as int],
                        ranking.len() == used,
                        ranking == tree::ranked(frequencies@, symbol as nat),
                        forall|i: int| 0 <= i < used ==> 0 <= #[trigger] ranking[i] < symbol,
                        forall|i: int| 0 <= i < at ==> #[trigger] self.order@[i] == ranking[i],
                        forall|i: int|
                            at < i <= used ==> #[trigger] self.order@[i] == ranking[i - 1],
                        target == tree::insert(
                            frequencies@,
                            ranking.take(at as int),
                            symbol as int,
                        ) + ranking.skip(at as int),
                    decreases at,
                {
                    proof {
                        let part = ranking.take(at as int);
                        assert(part.last() == ranking[at - 1]);
                        assert(self.order@[at - 1] == ranking[at - 1]);
                        assert(part.drop_last() =~= ranking.take(at - 1));
                        let shorter = tree::insert(frequencies@, part.drop_last(), symbol as int);
                        assert(shorter.push(ranking[at - 1]) + ranking.skip(at as int) =~= shorter
                            + ranking.skip(at - 1));
                    }
                    self.order[at] = self.order[at - 1];
                    at = at - 1;
                }
                proof {
                    let part = ranking.take(at as int);
                    if at > 0 {
                        assert(part.last() == ranking[at - 1]);
                        assert(self.order@[at - 1] == ranking[at - 1]);
                    }
                    assert(target =~= part.push(symbol as int) + ranking.skip(at as int));
                }
                self.order[at] = symbol as u16;
                used = used + 1;
                assert(symbols_of(self.order@, used as int) =~= target);
            }
            symbol = symbol + 1;
        }
        used
    }

    /// Whether the lightest root is a leaf rather than a merged node.
    fn leaf_first(&self, used: usize, leaf: usize, node: usize, next: usize) -> (first: bool)
        requires
            used <= 288,
            node <= 576,
            next <= 576,
        ensures
            first == (leaf < used && (node >= next || self.weights@[leaf as int]
                <= self.weights@[node as int])),
    {
        leaf < used && (node >= next || self.weights[leaf] <= self.weights[node])
    }

    /// Merges the ranked symbols into a tree: classic two-queue Huffman. Leaves are already
    /// sorted, and merged nodes come out in non-decreasing order, so the two smallest are
    /// always at the front of one queue or the other.
    #[verifier::rlimit(30)]
    fn merge(&mut self, frequencies: &[u32], used: usize)
        requires
            2 <= used <= frequencies@.len() <= 288,
            symbols_of(old(self).order@, used as int) == tree::ranked(
                frequencies@,
                frequencies@.len(),
            ),
        ensures
            final(self).order == old(self).order,
            ({
                let order = tree::ranked(frequencies@, frequencies@.len());
                let whole = tree::forest(tree::leaf_weights(frequencies@, order), (used - 1) as nat);
                forall|x: int|
                    0 <= x < 2 * used - 2 ==> #[trigger] final(self).parents@[x] == whole.parents[x]
            }),
    {
        let ghost order = tree::ranked(frequencies@, frequencies@.len());
        let ghost w = tree::leaf_weights(frequencies@, order);
        let ghost n = used as int;
        proof {
            tree::lemma_ranked(frequencies@, frequencies@.len());
        }
        let mut i: usize = 0;
        while i < used
            invariant
                i <= used <= 288,
                n == used,
                self.order == old(self).order,
                symbols_of(self.order@, n) == order,
                w == tree::leaf_weights(frequencies@, order),
                forall|x: int| 0 <= x < n ==> 0 <= #[trigger] order[x] < frequencies@.len(),
                forall|x: int| 0 <= x < i ==> #[trigger] self.weights@[x] == w[x],
            decreases used - i,
        {
            assert(order[i as int] == self.order@[i as int]);
            self.weights[i] = frequencies[self.order[i] as usize] as u64;
            i = i + 1;
        }
        let mut leaf: usize = 0;
        let mut node: usize = used;
        let mut next: usize = used;
        let ghost mut k: nat = 0;
        proof {
            tree::lemma_weight_sum_bound(w, 0, n, 0xffff_ffff);
        }
        while (used - leaf) + (next - node) > 1
            invariant
                2 <= used <= 288,
                n == used,
                w.len() == n,
                self.order == old(self).order,
                forall|x: int| 0 <= x < n ==> 0 <= #[trigger] w[x],
                tree::weight_sum(w, 0, n) <= n * 0xffff_ffff,
                k <= n - 1,
                next == n + k,
                tree::sound(tree::forest(w, k), n, k as int),
                leaf == tree::forest(w, k).leaf,
                node == tree::forest(w, k).node,
                forall|x: int|
                    0 <= x < next ==> #[trigger] self.weights@[x] == tree::forest(w, k).weights[x],
                forall|x: int|
                    tree::inner(tree::forest(w, k), n, x) ==> #[trigger] self.parents@[x]
                        == tree::forest(w, k).parents[x],
            decreases n - 1 - k,
        {
            let ghost f = tree::forest(w, k);
            proof {
                tree::lemma_merged(f, n, k as int);
                tree::lemma_root_weights(w, k);
            }
            let first: usize = if self.leaf_first(used, leaf, node, next) {
                leaf = leaf + 1;
                leaf - 1
            } else {
                node = node + 1;
                node - 1
            };
            let second: usize = if self.leaf_first(used, leaf, node, next) {
                leaf = leaf + 1;
                leaf - 1
            } else {
                node = node + 1;
                node - 1
            };
            assert(first == tree::joined(f, n).0 && second == tree::joined(f, n).1);
            self.weights[next] = self.weights[first] + self.weights[second];
            self.parents[first] = next as u16;
            self.parents[second] = next as u16;
            next = next + 1;
            proof {
                k = k + 1;
            }
        }
        proof {
            tree::lemma_forest(w, (n - 1) as nat);
            assert(k == n - 1);
            let whole = tree::forest(w, k);
            assert forall|x: int| 0 <= x < 2 * used - 2 implies #[trigger] self.parents@[x]
                == whole.parents[x] by {
                assert(tree::inner(whole, n, x));
            }
        }
    }

    /// Counts the depths of the leaves, cut off at the ceiling.
    fn measure(&self, used: usize, limit: usize, Ghost(parents): Ghost<Seq<int>>) -> (histogram: [u32; 16])
        requires
            2 <= used <= 288,
            1 <= limit <= 15,
            parents.len() == 2 * used - 1,
            forall|x: int| 0 <= x < 2 * used - 2 ==> #[trigger] self.parents@[x] == parents[x],
            forall|x: int| 0 <= x < 2 * used - 2 ==> x < #[trigger] parents[x] <= 2 * used - 2,
        ensures
            plain(histogram@) == tree::tally(parents, 2 * used - 2, limit as nat, used as nat),
    {
        let root: usize = 2 * used - 2;
        let mut histogram: [u32; 16] = [0; 16];
        let mut i: usize = 0;
        assert(plain(histogram@) =~= tree::tally(parents, root as int, limit as nat, 0));
        while i < used
            invariant
                i <= used <= 288,
                2 <= used,
                root == 2 * used - 2,
                1 <= limit <= 15,
                forall|x: int| 0 <= x < root ==> #[trigger] self.parents@[x] == parents[x],
                forall|x: int| 0 <= x < root ==> x < #[trigger] parents[x] <= root,
                plain(histogram@) == tree::tally(parents, root as int, limit as nat, i as nat),
                forall|l: int| 0 <= l < 16 ==> #[trigger] histogram@[l] <= i,
            decreases used - i,
        {
            let mut depth: usize = 0;
            let mut current: usize = i;
            while current != root
                invariant
                    i < used <= 288,
                    root == 2 * used - 2,
                    i <= current <= root,
                    depth <= current,
                    forall|x: int| 0 <= x < root ==> #[trigger] self.parents@[x] == parents[x],
                    forall|x: int| 0 <= x < root ==> x < #[trigger] parents[x] <= root,
                    depth + tree::depth(parents, root as int, current as int) == tree::depth(
                        parents,
                        root as int,
                        i as int,
                    ),
                decreases root - current,
            {
                assert(self.parents@[current as int] == parents[current as int]);
                current = self.parents[current] as usize;
                depth = depth + 1;
            }
            let length: usize = if depth <= limit {
                depth
            } else {
                limit
            };
            let ghost before = histogram@;
            histogram[length] = histogram[length] + 1;
            proof {
                assert(plain(histogram@) =~= plain(before).update(
                    length as int,
                    plain(before)[length as int] + 1,
                ));
                assert forall|l: int| 0 <= l < 16 implies #[trigger] histogram@[l] <= i + 1 by {
                    assert(before[l] <= i);
                }
            }
            i = i + 1;
        }
        histogram
    }

    /// Clamping over-long codes leaves the tree over-subscribed. Repair it by repeatedly
    /// dropping one longest code and splitting a shorter one in its place, which is the
    /// cheapest single step that restores the Kraft equality.
    fn repair(histogram: &mut [u32; 16], limit: usize)
        requires
            1 <= limit <= 15,
            tree::bounded(plain(old(histogram)@), limit as nat),
            tree::space(plain(old(histogram)@), limit as nat, limit as nat) >= pow2(limit as nat),
            tree::space(plain(old(histogram)@), limit as nat, (limit - 1) as nat) <= pow2(
                limit as nat,
            ),
            tree::total(plain(old(histogram)@), limit as nat) <= pow2(limit as nat),
            tree::total(plain(old(histogram)@), limit as nat) <= 288,
            limit == 1 ==> tree::space(plain(old(histogram)@), limit as nat, limit as nat) == pow2(
                limit as nat,
            ),
        ensures
            plain(final(histogram)@) == tree::repaired(
                plain(old(histogram)@),
                limit as nat,
                (tree::space(plain(old(histogram)@), limit as nat, limit as nat) - pow2(
                    limit as nat,
                )) as nat,
            ),
    {
        let ghost start = plain(histogram@);
        let ghost top = limit as nat;
        proof {
            bits::lemma_pow2_small();
            bits::lemma_pow2_monotonic(limit as nat, 15);
            vstd::bits::lemma_u64_shl_is_mul(1, limit as u64);
        }
        let mut kraft: u64 = 0;
        let mut length: usize = 1;
        while length <= limit
            invariant
                1 <= length <= limit + 1 <= 16,
                top == limit,
                start == plain(histogram@),
                tree::bounded(start, top),
                tree::total(start, top) <= 288,
                kraft == tree::space(start, top, (length - 1) as nat),
                kraft <= (length - 1) * 288 * 16384,
            decreases limit + 1 - length,
        {
            proof {
                bits::lemma_pow2_small();
                bits::lemma_pow2_monotonic((limit - length) as nat, 14);
                tree::lemma_total_monotonic(start, length as nat, top);
                tree::lemma_total_monotonic(start, 0, (length - 1) as nat);
                assert(start[length as int] <= 288);
                assert(start[length as int] == histogram@[length as int]);
                let h = histogram@[length as int];
                let e = pow2((limit - length) as nat);
                assert(h * e <= 288 * 16384) by (nonlinear_arith)
                    requires
                        h <= 288,
                        e <= 16384,
                ;
                vstd::bits::lemma_u64_shl_is_mul(h as u64, (limit - length) as u64);
            }
            kraft = kraft + ((histogram[length] as u64) << ((limit - length) as u64));
            length = length + 1;
        }
        let target: u64 = 1u64 << (limit as u64);
        let ghost mut done: nat = 0;
        while kraft > target
            invariant
                1 <= limit <= 15,
                top == limit,
                target == pow2(top),
                tree::bounded(start, top),
                tree::space(start, top, top) >= pow2(top),
                tree::space(start, top, (top - 1) as nat) <= pow2(top),
                tree::total(start, top) <= pow2(top),
                tree::total(start, top) <= 288,
                limit == 1 ==> tree::space(start, top, top) == pow2(top),
                kraft >= target,
                done <= tree::space(start, top, top) - pow2(top),
                kraft == tree::space(start, top, top) - done,
                plain(histogram@) == tree::repaired(start, top, done),
            decreases kraft,
        {
            let ghost here = plain(histogram@);
            proof {
                tree::lemma_repaired(start, top, done);
                tree::lemma_split_one(here, top);
                assert(here[limit as int] == histogram@[limit as int]);
            }
            let mut shorter: usize = limit - 1;
            while histogram[shorter] == 0
                invariant
                    1 <= shorter < limit <= 15,
                    top == limit,
                    here == plain(histogram@),
                    here[tree::in_use(here, (top - 1) as nat) as int] > 0,
                    tree::in_use(here, shorter as nat) == tree::in_use(here, (top - 1) as nat),
                decreases shorter,
            {
                assert(here[shorter as int] == histogram@[shorter as int]);
                shorter = shorter - 1;
            }
            assert(here[shorter as int] == histogram@[shorter as int]);
            proof {
                tree::lemma_total_parts(here, top, shorter as int + 1);
                assert(here[shorter + 1] == histogram@[shorter + 1]);
            }
            histogram[limit] = histogram[limit] - 1;
            histogram[shorter] = histogram[shorter] - 1;
            histogram[shorter + 1] = histogram[shorter + 1] + 2;
            kraft = kraft - 1;
            proof {
                assert(plain(histogram@) =~= tree::split_one(here, top));
                done = done + 1;
            }
        }
    }

    /// Hands the shortest codes to the most frequent symbols.
    fn hand_out(&self, used: usize, histogram: &[u32; 16], lengths: &mut [u8], alphabet: usize, limit: usize)
        requires
            2 <= used <= 288,
            1 <= limit <= 15,
            alphabet <= old(lengths)@.len(),
            tree::bounded(plain(histogram@), limit as nat),
            tree::total(plain(histogram@), limit as nat) == used,
            forall|i: int| 0 <= i < used ==> #[trigger] self.order@[i] < alphabet,
            forall|s: int| 0 <= s < alphabet ==> #[trigger] old(lengths)@[s] == 0,
        ensures
            final(lengths)@.len() == old(lengths)@.len(),
            final(lengths)@.take(alphabet as int) == tree::assigned(
                symbols_of(self.order@, used as int),
                plain(histogram@),
                alphabet as nat,
                0,
            ),
            forall|s: int|
                alphabet <= s < old(lengths)@.len() ==> #[trigger] final(lengths)@[s] == old(lengths)@[s],
    {
        let ghost order = symbols_of(self.order@, used as int);
        let ghost hist = plain(histogram@);
        let mut index: usize = used;
        let mut length: usize = 1;
        assert(lengths@.take(alphabet as int) =~= tree::assigned(
            order,
            hist,
            alphabet as nat,
            used as nat,
        ));
        while length <= limit
            invariant
                1 <= length <= limit + 1 <= 16,
                index <= used <= 288,
                alphabet <= lengths@.len() == old(lengths)@.len(),
                order == symbols_of(self.order@, used as int),
                hist == plain(histogram@),
                tree::bounded(hist, limit as nat),
                tree::total(hist, limit as nat) == used,
                forall|i: int| 0 <= i < used ==> #[trigger] self.order@[i] < alphabet,
                used - index == tree::total(hist, (length - 1) as nat),
                lengths@.take(alphabet as int) == tree::assigned(
                    order,
                    hist,
                    alphabet as nat,
                    index as nat,
                ),
                forall|s: int|
                    alphabet <= s < lengths@.len() ==> #[trigger] lengths@[s] == old(lengths)@[s],
            decreases limit + 1 - length,
        {
            let count: u32 = histogram[length];
            let mut given: u32 = 0;
            proof {
                tree::lemma_total_monotonic(hist, length as nat, limit as nat);
                assert(hist[length as int] == count);
            }
            while given < count
                invariant
                    1 <= length <= limit <= 15,
                    given <= count,
                    index <= used <= 288,
                    alphabet <= lengths@.len() == old(lengths)@.len(),
                    order == symbols_of(self.order@, used as int),
                    hist == plain(histogram@),
                    hist[length as int] == count,
                    tree::bounded(hist, limit as nat),
                    tree::total(hist, limit as nat) == used,
                    tree::total(hist, length as nat) <= used,
                    forall|i: int| 0 <= i < used ==> #[trigger] self.order@[i] < alphabet,
                    used - index == tree::total(hist, (length - 1) as nat) + given,
                    lengths@.take(alphabet as int) == tree::assigned(
                        order,
                        hist,
                        alphabet as nat,
                        index as nat,
                    ),
                    forall|s: int|
                        alphabet <= s < lengths@.len() ==> #[trigger] lengths@[s] == old(lengths)@[s],
                decreases count - given,
            {
                assert(tree::total(hist, length as nat) == tree::total(hist, (length - 1) as nat)
                    + count);
                index = index - 1;
                let symbol: usize = self.order[index] as usize;
                let ghost before = lengths@.take(alphabet as int);
                proof {
                    tree::lemma_length_at_unique(
                        hist,
                        limit as nat,
                        used - 1 - index,
                        length as nat,
                    );
                    tree::lemma_total_monotonic(hist, 0, (length - 1) as nat);
                    assert(order[index as int] == symbol);
                }
                lengths[symbol] = length as u8;
                assert(lengths@.take(alphabet as int) =~= before.update(symbol as int, length as u8));
                given = given + 1;
            }
            length = length + 1;
        }
    }

    /// Computes code lengths for `frequencies`, none longer than `max_length`.
    ///
    /// Writes to `lengths`, which must be at least as long as `frequencies`; unused symbols
    /// get length zero. The result always describes a complete tree, so a code is emitted
    /// for at least two symbols even when the data uses fewer.
    pub fn code_lengths(&mut self, frequencies: &[u32], lengths: &mut [u8], max_length: usize)
        requires
            2 <= frequencies@.len() <= 288,
            1 <= max_length <= 15,
            frequencies@.len() <= old(lengths)@.len(),
            tree::ranked(frequencies@, frequencies@.len()).len() <= pow2(max_length as nat),
        ensures
            final(lengths)@.len() == old(lengths)@.len(),
            final(lengths)@.take(frequencies@.len() as int) == tree::code_lengths(
                frequencies@,
                max_length as nat,
            ),
            code::complete(final(lengths)@.take(frequencies@.len() as int)),
            forall|s: int|
                frequencies@.len() <= s < old(lengths)@.len() ==> #[trigger] final(lengths)@[s]
                    == old(lengths)@[s],
    {
        let alphabet: usize = frequencies.len();
        let mut i: usize = 0;
        while i < alphabet
            invariant
                i <= alphabet <= lengths@.len() == old(lengths)@.len(),
                forall|s: int| 0 <= s < i ==> #[trigger] lengths@[s] == 0,
                forall|s: int|
                    alphabet <= s < lengths@.len() ==> #[trigger] lengths@[s] == old(lengths)@[s],
            decreases alphabet - i,
        {
            lengths[i] = 0;
            i = i + 1;
        }
        let used: usize = self.rank(frequencies);
        let ghost order = tree::ranked(frequencies@, frequencies@.len());
        proof {
            tree::lemma_ranked(frequencies@, frequencies@.len());
            tree::law_code_lengths(frequencies@, max_length as nat);
            assert(order.len() == used);
            assert forall|x: int| 0 <= x < used implies #[trigger] self.order@[x] < alphabet by {
                assert(order[x] == self.order@[x]);
            }
        }
        // A complete tree needs at least two codes. Pad with the lowest symbols that are not
        // already in use, which costs one bit of header and keeps every decoder happy: a
        // one-symbol code leaves half the code space unreachable, and some decoders reject
        // that.
        if used < 2 {
            let first: usize = if used == 1 {
                self.order[0] as usize
            } else {
                0
            };
            let second: usize = if first == 0 {
                1
            } else {
                0
            };
            lengths[first] = 1;
            lengths[second] = 1;
            proof {
                if used == 1 {
                    assert(order[0] == self.order@[0]);
                }
                assert(lengths@.take(alphabet as int) =~= tree::padded(order, alphabet as nat));
            }
            return;
        }
        let ghost weights = tree::leaf_weights(frequencies@, order);
        let ghost parents = tree::forest(weights, (used - 1) as nat).parents;
        proof {
            tree::lemma_leaf_shares(weights, (2 * used) as nat);
            tree::lemma_forest(weights, (used - 1) as nat);
            tree::lemma_fitted(weights, max_length as nat);
        }
        self.merge(frequencies, used);
        let mut histogram: [u32; 16] = self.measure(used, max_length, Ghost(parents));
        Self::repair(&mut histogram, max_length);
        self.hand_out(used, &histogram, lengths, alphabet, max_length);
    }
}

} // verus!
