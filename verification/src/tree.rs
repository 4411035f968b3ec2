//! Which code lengths fit a set of symbol frequencies.
//!
//! The two rarest trees are merged until one is left; a symbol's code length is its depth in
//! that tree. Depths beyond the ceiling are cut off, which oversubscribes the code space, and
//! the excess is worked off by splitting codewords shorter than the ceiling. The resulting
//! lengths are handed out so that a more frequent symbol never gets a longer codeword.

use vstd::prelude::*;
use vstd::arithmetic::power2::*;
use crate::bits;
use crate::code;

verus! {

// ---------------------------------------------------------------------------------------
// Ranking the symbols
// ---------------------------------------------------------------------------------------

/// `order` with `x` put behind every symbol that is no more frequent.
pub open spec fn insert(freqs: Seq<u32>, order: Seq<int>, x: int) -> Seq<int>
    decreases order.len(),
{
    if order.len() == 0 || freqs[order.last()] <= freqs[x] {
        order.push(x)
    } else {
        insert(freqs, order.drop_last(), x).push(order.last())
    }
}

/// The used ones of the first `i` symbols, rarest first, equally frequent ones in symbol
/// order.
pub open spec fn ranked(freqs: Seq<u32>, i: nat) -> Seq<int>
    decreases i,
{
    if i == 0 {
        Seq::empty()
    } else if freqs[i - 1] > 0 {
        insert(freqs, ranked(freqs, (i - 1) as nat), i - 1)
    } else {
        ranked(freqs, (i - 1) as nat)
    }
}

/// Whether every symbol in `order` is at most as frequent as the ones behind it.
pub open spec fn ascending(freqs: Seq<u32>, order: Seq<int>) -> bool {
    forall|a: int, b: int|
        0 <= a <= b < order.len() ==> freqs[#[trigger] order[a]] <= freqs[#[trigger] order[b]]
}

pub proof fn lemma_insert(freqs: Seq<u32>, order: Seq<int>, x: int)
    requires
        ascending(freqs, order),
        forall|a: int| 0 <= a < order.len() ==> #[trigger] order[a] < x,
        order.no_duplicates(),
    ensures
        ({
            let grown = insert(freqs, order, x);
            &&& grown.len() == order.len() + 1
            &&& ascending(freqs, grown)
            &&& grown.no_duplicates()
            &&& forall|s: int| #[trigger] grown.contains(s) <==> order.contains(s) || s == x
        }),
    decreases order.len(),
{
    let grown = insert(freqs, order, x);
    if order.len() == 0 || freqs[order.last()] <= freqs[x] {
        assert(grown[order.len() as int] == x);
        assert forall|s: int| #[trigger] grown.contains(s) <==> order.contains(s) || s == x by {
            if order.contains(s) {
                let k = choose|k: int| 0 <= k < order.len() && order[k] == s;
                assert(grown[k] == s);
            }
            if s == x {
                assert(grown[order.len() as int] == s);
            }
        }
    } else {
        let rest = order.drop_last();
        assert forall|a: int| 0 <= a < rest.len() implies #[trigger] rest[a] < x by {
            assert(rest[a] == order[a]);
        }
        assert forall|a: int, b: int| 0 <= a <= b < rest.len() implies freqs[#[trigger] rest[a]]
            <= freqs[#[trigger] rest[b]] by {
            assert(rest[a] == order[a] && rest[b] == order[b]);
        }
        lemma_insert(freqs, rest, x);
        let inner = insert(freqs, rest, x);
        let last = order.last();
        assert forall|s: int| #[trigger] inner.contains(s) implies freqs[s] <= freqs[last] && s != last by {
            if rest.contains(s) {
                let k = choose|k: int| 0 <= k < rest.len() && rest[k] == s;
                assert(order[k] == s);
                assert(order[order.len() - 1] == last);
            }
        }
        assert forall|a: int, b: int| 0 <= a <= b < grown.len() implies freqs[#[trigger] grown[a]]
            <= freqs[#[trigger] grown[b]] by {
            if b == grown.len() - 1 && a < b {
                assert(inner.contains(grown[a]));
            }
        }
        assert forall|a: int, b: int| 0 <= a < grown.len() && 0 <= b < grown.len() && a != b implies grown[a]
            != grown[b] by {
            if a == grown.len() - 1 {
                assert(inner.contains(grown[b]));
            } else if b == grown.len() - 1 {
                assert(inner.contains(grown[a]));
            }
        }
        assert forall|s: int| #[trigger] grown.contains(s) <==> order.contains(s) || s == x by {
            if grown.contains(s) {
                let k = choose|k: int| 0 <= k < grown.len() && grown[k] == s;
                if k < grown.len() - 1 {
                    assert(inner.contains(s));
                    if rest.contains(s) {
                        let m = choose|m: int| 0 <= m < rest.len() && rest[m] == s;
                        assert(order[m] == s);
                    }
                } else {
                    assert(order[order.len() - 1] == s);
                }
            }
            if order.contains(s) {
                let k = choose|k: int| 0 <= k < order.len() && order[k] == s;
                if k < order.len() - 1 {
                    assert(rest[k] == s);
                    assert(inner.contains(s));
                    let m = choose|m: int| 0 <= m < inner.len() && inner[m] == s;
                    assert(grown[m] == s);
                } else {
                    assert(grown[grown.len() - 1] == s);
                }
            }
            if s == x {
                assert(inner.contains(s));
                let m = choose|m: int| 0 <= m < inner.len() && inner[m] == s;
                assert(grown[m] == s);
            }
        }
    }
}

/// The ranking holds exactly the used symbols, each once, rarest first.
pub proof fn lemma_ranked(freqs: Seq<u32>, i: nat)
    requires
        i <= freqs.len(),
    ensures
        ({
            let order = ranked(freqs, i);
            &&& order.len() <= i
            &&& ascending(freqs, order)
            &&& order.no_duplicates()
            &&& forall|s: int|
                #[trigger] order.contains(s) <==> 0 <= s < i && freqs[s] > 0
            &&& forall|a: int| 0 <= a < order.len() ==> 0 <= #[trigger] order[a] < i && freqs[order[a]] > 0
        }),
    decreases i,
{
    let order = ranked(freqs, i);
    if i > 0 {
        let before = ranked(freqs, (i - 1) as nat);
        lemma_ranked(freqs, (i - 1) as nat);
        if freqs[i - 1] > 0 {
            lemma_insert(freqs, before, i - 1);
        }
    }
    assert forall|a: int| 0 <= a < order.len() implies 0 <= #[trigger] order[a] < i && freqs[order[a]]
        > 0 by {
        assert(order.contains(order[a]));
    }
}

// ---------------------------------------------------------------------------------------
// Merging
// ---------------------------------------------------------------------------------------

/// A forest on its way to becoming one tree. Nodes are numbered: first the leaves, then the
/// merged nodes in the order in which they arose. The leaves from `leaf` on and the merged
/// nodes from `node` on are still roots.
pub struct Forest {
    pub weights: Seq<int>,
    pub parents: Seq<int>,
    pub leaf: int,
    pub node: int,
}

/// Whether the lightest root is a leaf. Leaves and merged nodes each come in ascending order
/// of weight, and a leaf goes first where the weights are equal.
pub open spec fn leaf_first(forest: Forest, n: int) -> bool {
    forest.leaf < n && (forest.node >= forest.weights.len() || forest.weights[forest.leaf]
        <= forest.weights[forest.node])
}

/// The lightest root.
pub open spec fn lightest(forest: Forest, n: int) -> int {
    if leaf_first(forest, n) {
        forest.leaf
    } else {
        forest.node
    }
}

/// The forest with its lightest root taken up.
pub open spec fn taken(forest: Forest, n: int) -> Forest {
    if leaf_first(forest, n) {
        Forest { leaf: forest.leaf + 1, ..forest }
    } else {
        Forest { node: forest.node + 1, ..forest }
    }
}

/// The forest with its two lightest trees merged.
pub open spec fn merged(forest: Forest, n: int) -> Forest {
    let a = lightest(forest, n);
    let rest = taken(forest, n);
    let b = lightest(rest, n);
    let left = taken(rest, n);
    let next = forest.weights.len() as int;
    Forest {
        weights: forest.weights.push(forest.weights[a] + forest.weights[b]),
        parents: forest.parents.update(a, next).update(b, next).push(0),
        leaf: left.leaf,
        node: left.node,
    }
}

/// The forest over leaves of the given weights after `k` merges.
pub open spec fn forest(weights: Seq<int>, k: nat) -> Forest
    decreases k,
{
    if k == 0 {
        Forest {
            weights,
            parents: Seq::new(weights.len(), |i: int| 0int),
            leaf: 0,
            node: weights.len() as int,
        }
    } else {
        merged(forest(weights, (k - 1) as nat), weights.len() as int)
    }
}

/// Whether node `x` has a parent.
pub open spec fn inner(f: Forest, n: int, x: int) -> bool {
    0 <= x < f.leaf || n <= x < f.node
}

/// Whether the parts of a forest over `n` leaves after `k` merges fit together.
pub open spec fn sound(f: Forest, n: int, k: int) -> bool {
    &&& f.weights.len() == n + k
    &&& f.parents.len() == n + k
    &&& 0 <= f.leaf <= n <= f.node <= n + k
    &&& f.leaf + f.node - n == 2 * k
    &&& forall|x: int| inner(f, n, x) ==> x < #[trigger] f.parents[x] < n + k && f.parents[x] >= n
}

/// The two nodes that a merge joins.
pub open spec fn joined(f: Forest, n: int) -> (int, int) {
    (lightest(f, n), lightest(taken(f, n), n))
}

pub proof fn lemma_merged(f: Forest, n: int, k: int)
    requires
        sound(f, n, k),
        0 <= k < n - 1,
    ensures
        sound(merged(f, n), n, k + 1),
        ({
            let (a, b) = joined(f, n);
            let g = merged(f, n);
            &&& 0 <= a < n + k
            &&& 0 <= b < n + k
            &&& a != b
            &&& !inner(f, n, a)
            &&& !inner(f, n, b)
            &&& g.parents[a] == n + k
            &&& g.parents[b] == n + k
            &&& forall|x: int| inner(g, n, x) <==> (inner(f, n, x) || x == a || x == b)
            &&& forall|x: int| inner(f, n, x) ==> #[trigger] g.parents[x] == f.parents[x]
        }),
{
}

/// After all merges one root is left, the node made last.
pub proof fn lemma_forest(weights: Seq<int>, k: nat)
    requires
        weights.len() >= 2,
        k <= weights.len() - 1,
    ensures
        sound(forest(weights, k), weights.len() as int, k as int),
        k == weights.len() - 1 ==> forest(weights, k).leaf == weights.len() && forest(
            weights,
            k,
        ).node == 2 * weights.len() - 2,
    decreases k,
{
    if k > 0 {
        lemma_forest(weights, (k - 1) as nat);
        lemma_merged(forest(weights, (k - 1) as nat), weights.len() as int, k - 1);
    }
}

/// A parent once given stays.
pub proof fn lemma_parents_stay(weights: Seq<int>, k: nat, m: nat, x: int)
    requires
        weights.len() >= 2,
        k <= m <= weights.len() - 1,
        inner(forest(weights, k), weights.len() as int, x),
    ensures
        inner(forest(weights, m), weights.len() as int, x),
        forest(weights, m).parents[x] == forest(weights, k).parents[x],
    decreases m - k,
{
    if k < m {
        let j = (m - 1) as nat;
        lemma_parents_stay(weights, k, j, x);
        lemma_forest(weights, j);
        lemma_merged(forest(weights, j), weights.len() as int, j as int);
    }
}

/// The weights from `lo` up to `hi` together.
pub open spec fn weight_sum(weights: Seq<int>, lo: int, hi: int) -> int
    decreases hi - lo,
{
    if lo >= hi {
        0
    } else {
        weights[lo] + weight_sum(weights, lo + 1, hi)
    }
}

pub proof fn lemma_weight_sum_same(a: Seq<int>, b: Seq<int>, lo: int, hi: int)
    requires
        0 <= lo,
        hi <= a.len(),
        hi <= b.len(),
        forall|i: int| lo <= i < hi ==> #[trigger] a[i] == b[i],
    ensures
        weight_sum(a, lo, hi) == weight_sum(b, lo, hi),
    decreases hi - lo,
{
    if lo < hi {
        assert(a[lo] == b[lo]);
        lemma_weight_sum_same(a, b, lo + 1, hi);
    }
}

pub proof fn lemma_weight_sum_end(a: Seq<int>, lo: int, hi: int)
    requires
        0 <= lo <= hi < a.len(),
    ensures
        weight_sum(a, lo, hi + 1) == weight_sum(a, lo, hi) + a[hi],
    decreases hi - lo,
{
    reveal_with_fuel(weight_sum, 2);
    if lo < hi {
        lemma_weight_sum_end(a, lo + 1, hi);
    }
}

pub proof fn lemma_weight_sum_nonneg(a: Seq<int>, lo: int, hi: int)
    requires
        0 <= lo,
        hi <= a.len(),
        forall|i: int| lo <= i < hi ==> 0 <= #[trigger] a[i],
    ensures
        weight_sum(a, lo, hi) >= 0,
    decreases hi - lo,
{
    if lo < hi {
        assert(a[lo] >= 0);
        lemma_weight_sum_nonneg(a, lo + 1, hi);
    }
}

/// The roots together always weigh as much as the leaves did.
#[verifier::rlimit(30)]
pub proof fn lemma_root_weights(weights: Seq<int>, k: nat)
    requires
        weights.len() >= 2,
        k <= weights.len() - 1,
        forall|i: int| 0 <= i < weights.len() ==> 0 <= #[trigger] weights[i],
    ensures
        ({
            let n = weights.len() as int;
            let f = forest(weights, k);
            &&& weight_sum(f.weights, f.leaf, n) + weight_sum(f.weights, f.node, n + k)
                == weight_sum(weights, 0, n)
            &&& forall|i: int| 0 <= i < f.weights.len() ==> 0 <= #[trigger] f.weights[i]
            &&& k < n - 1 ==> f.weights[joined(f, n).0] + f.weights[joined(f, n).1] <= weight_sum(
                weights,
                0,
                n,
            )
        }),
    decreases k,
{
    let n = weights.len() as int;
    let f = forest(weights, k);
    lemma_forest(weights, k);
    if k > 0 {
        let j = (k - 1) as nat;
        let g = forest(weights, j);
        lemma_root_weights(weights, j);
        lemma_forest(weights, j);
        lemma_merged(g, n, j as int);
        let (a, b) = joined(g, n);
        reveal_with_fuel(weight_sum, 3);
        lemma_weight_sum_same(g.weights, f.weights, f.leaf, n);
        lemma_weight_sum_same(g.weights, f.weights, f.node, n + j);
        lemma_weight_sum_end(f.weights, f.node, n + j);
    }
    if k < n - 1 {
        lemma_merged(f, n, k as int);
        let g = merged(f, n);
        reveal_with_fuel(weight_sum, 3);
        lemma_weight_sum_nonneg(f.weights, g.leaf, n);
        lemma_weight_sum_nonneg(f.weights, g.node, n + k);
    }
}

pub proof fn lemma_weight_sum_bound(weights: Seq<int>, lo: int, hi: int, most: int)
    requires
        0 <= lo <= hi <= weights.len(),
        forall|i: int| lo <= i < hi ==> #[trigger] weights[i] <= most,
    ensures
        weight_sum(weights, lo, hi) <= (hi - lo) * most,
    decreases hi - lo,
{
    if lo < hi {
        lemma_weight_sum_bound(weights, lo + 1, hi, most);
        assert((hi - lo) * most == most + (hi - (lo + 1)) * most) by (nonlinear_arith);
        assert(weights[lo] <= most);
    } else {
        assert(0 * most == 0) by (nonlinear_arith);
    }
}

// ---------------------------------------------------------------------------------------
// Depths
// ---------------------------------------------------------------------------------------

/// How many steps up from node `x` the root is.
pub open spec fn depth(parents: Seq<int>, root: int, x: int) -> nat
    decreases root - x,
{
    if x >= root || parents[x] <= x || parents[x] > root {
        0
    } else {
        1 + depth(parents, root, parents[x])
    }
}

pub proof fn lemma_depth_bound(parents: Seq<int>, root: int, x: int)
    requires
        0 <= x <= root,
        forall|y: int| 0 <= y < root ==> y < #[trigger] parents[y] <= root,
    ensures
        depth(parents, root, x) <= root - x,
        x < root ==> depth(parents, root, x) >= 1,
    decreases root - x,
{
    if x < root {
        lemma_depth_bound(parents, root, parents[x]);
    }
}

/// The share of the code space that a node at its depth takes, in units of `2^-d`.
pub open spec fn share(parents: Seq<int>, root: int, d: nat, x: int) -> nat {
    pow2((d - depth(parents, root, x)) as nat)
}

/// The shares of the nodes from `lo` up to `hi`.
pub open spec fn shares(parents: Seq<int>, root: int, d: nat, lo: int, hi: int) -> nat
    decreases hi - lo,
{
    if hi <= lo {
        0
    } else {
        shares(parents, root, d, lo, hi - 1) + share(parents, root, d, hi - 1)
    }
}

/// Taken-up nodes have between them the shares of the nodes that arose from them.
#[verifier::rlimit(30)]
proof fn lemma_shares_merge(weights: Seq<int>, d: nat, k: nat)
    requires
        weights.len() >= 2,
        k <= weights.len() - 1,
        d >= 2 * weights.len(),
    ensures
        ({
            let n = weights.len() as int;
            let whole = forest(weights, (n - 1) as nat);
            let f = forest(weights, k);
            shares(whole.parents, 2 * n - 2, d, 0, f.leaf) + shares(
                whole.parents,
                2 * n - 2,
                d,
                n,
                f.node,
            ) == shares(whole.parents, 2 * n - 2, d, n, n + k)
        }),
    decreases k,
{
    let n = weights.len() as int;
    let root = 2 * n - 2;
    let last = (n - 1) as nat;
    let whole = forest(weights, last);
    let p = whole.parents;
    if k > 0 {
        let j = (k - 1) as nat;
        lemma_shares_merge(weights, d, j);
        lemma_forest(weights, j);
        lemma_forest(weights, k);
        lemma_forest(weights, last);
        let f = forest(weights, j);
        let g = forest(weights, k);
        lemma_merged(f, n, j as int);
        let (a, b) = joined(f, n);
        lemma_parents_stay(weights, k, last, a);
        lemma_parents_stay(weights, k, last, b);
        assert(p[a] == n + j && p[b] == n + j);
        // Both joined nodes are one deeper than the node they make.
        assert forall|y: int| 0 <= y < root implies y < #[trigger] p[y] <= root by {
            assert(inner(whole, n, y));
        }
        lemma_depth_bound(p, root, n + j);
        let e = (d - depth(p, root, n + j) - 1) as nat;
        bits::lemma_pow2_step(e);
        assert(depth(p, root, a) == depth(p, root, n + j) + 1);
        assert(depth(p, root, b) == depth(p, root, n + j) + 1);
        assert(share(p, root, d, a) + share(p, root, d, b) == share(p, root, d, n + j));
        // The merge takes up the two next nodes, leaves or merged ones.
        let mid = taken(f, n);
        assert(shares(p, root, d, 0, mid.leaf) + shares(p, root, d, n, mid.node) == shares(
            p,
            root,
            d,
            0,
            f.leaf,
        ) + shares(p, root, d, n, f.node) + share(p, root, d, a));
        assert(shares(p, root, d, 0, g.leaf) + shares(p, root, d, n, g.node) == shares(
            p,
            root,
            d,
            0,
            mid.leaf,
        ) + shares(p, root, d, n, mid.node) + share(p, root, d, b));
        assert(shares(p, root, d, n, n + k) == shares(p, root, d, n, n + j) + share(
            p,
            root,
            d,
            n + j,
        ));
    }
}

/// The leaves of the finished tree take up the code space exactly.
pub proof fn lemma_leaf_shares(weights: Seq<int>, d: nat)
    requires
        weights.len() >= 2,
        d >= 2 * weights.len(),
    ensures
        ({
            let n = weights.len() as int;
            let p = forest(weights, (n - 1) as nat).parents;
            &&& shares(p, 2 * n - 2, d, 0, n) == pow2(d)
            &&& forall|y: int| 0 <= y < 2 * n - 2 ==> y < #[trigger] p[y] <= 2 * n - 2
        }),
{
    let n = weights.len() as int;
    let last = (n - 1) as nat;
    let whole = forest(weights, last);
    let p = whole.parents;
    lemma_forest(weights, last);
    lemma_shares_merge(weights, d, last);
    assert(shares(p, 2 * n - 2, d, n, 2 * n - 1) == shares(p, 2 * n - 2, d, n, 2 * n - 2) + share(
        p,
        2 * n - 2,
        d,
        2 * n - 2,
    ));
    assert forall|y: int| 0 <= y < 2 * n - 2 implies y < #[trigger] p[y] <= 2 * n - 2 by {
        assert(inner(whole, n, y));
    }
}

// ---------------------------------------------------------------------------------------
// The ceiling
// ---------------------------------------------------------------------------------------

/// A depth cut off at the ceiling.
pub open spec fn cut(depth: nat, limit: nat) -> nat {
    if depth <= limit {
        depth
    } else {
        limit
    }
}

/// How many of the first `i` leaves have each depth, once cut off at the ceiling.
pub open spec fn tally(parents: Seq<int>, root: int, limit: nat, i: nat) -> Seq<int>
    decreases i,
{
    if i == 0 {
        Seq::new(16, |l: int| 0int)
    } else {
        let before = tally(parents, root, limit, (i - 1) as nat);
        let l = cut(depth(parents, root, i - 1), limit) as int;
        before.update(l, before[l] + 1)
    }
}

/// The code space that the lengths up to `l` take, in codewords of length `limit`.
pub open spec fn space(hist: Seq<int>, limit: nat, l: nat) -> int
    decreases l,
{
    if l == 0 {
        0
    } else {
        space(hist, limit, (l - 1) as nat) + hist[l as int] * pow2((limit - l) as nat)
    }
}

/// How many codewords there are of the lengths up to `l`.
pub open spec fn total(hist: Seq<int>, l: nat) -> int
    decreases l,
{
    if l == 0 {
        0
    } else {
        total(hist, (l - 1) as nat) + hist[l as int]
    }
}

/// The greatest length from `l` down that is in use, or one.
pub open spec fn in_use(hist: Seq<int>, l: nat) -> nat
    decreases l,
{
    if l <= 1 || hist[l as int] > 0 {
        l
    } else {
        in_use(hist, (l - 1) as nat)
    }
}

/// One longest codeword dropped and a shorter one split in its place.
pub open spec fn split_one(hist: Seq<int>, limit: nat) -> Seq<int> {
    let s = in_use(hist, (limit - 1) as nat) as int;
    let dropped = hist.update(limit as int, hist[limit as int] - 1);
    let shrunk = dropped.update(s, dropped[s] - 1);
    shrunk.update(s + 1, shrunk[s + 1] + 2)
}

/// `excess` such steps.
pub open spec fn repaired(hist: Seq<int>, limit: nat, excess: nat) -> Seq<int>
    decreases excess,
{
    if excess == 0 {
        hist
    } else {
        split_one(repaired(hist, limit, (excess - 1) as nat), limit)
    }
}

/// A histogram of code lengths between one and `limit`.
pub open spec fn bounded(hist: Seq<int>, limit: nat) -> bool {
    &&& hist.len() == 16
    &&& hist[0] == 0
    &&& forall|l: int| 0 <= l < 16 ==> 0 <= #[trigger] hist[l]
    &&& forall|l: int| limit < l < 16 ==> #[trigger] hist[l] == 0
}

pub proof fn lemma_space_update(hist: Seq<int>, limit: nat, l: nat, k: int, v: int)
    requires
        hist.len() == 16,
        1 <= k < 16,
        l < 16,
    ensures
        space(hist.update(k, v), limit, l) == space(hist, limit, l) + (if k <= l {
            (v - hist[k]) * pow2((limit - k) as nat)
        } else {
            0
        }),
        total(hist.update(k, v), l) == total(hist, l) + (if k <= l {
            v - hist[k]
        } else {
            0
        }),
    decreases l,
{
    if l > 0 {
        lemma_space_update(hist, limit, (l - 1) as nat, k, v);
        if l == k {
            let e = pow2((limit - k) as nat);
            assert(v * e == hist[k] * e + (v - hist[k]) * e) by (nonlinear_arith);
        }
    }
}

/// Every length below the ceiling but the ones up to `l` being out of use, nothing more is
/// taken.
pub proof fn lemma_space_flat(hist: Seq<int>, limit: nat, l: nat)
    requires
        bounded(hist, 15),
        l < 16,
        forall|k: int| 1 <= k <= l ==> #[trigger] hist[k] == 0,
    ensures
        space(hist, limit, l) == 0,
        total(hist, l) == 0,
    decreases l,
{
    if l > 0 {
        lemma_space_flat(hist, limit, (l - 1) as nat);
        assert(0 * pow2((limit - l) as nat) == 0) by (nonlinear_arith);
    }
}

proof fn lemma_in_use(hist: Seq<int>, l: nat)
    requires
        1 <= l < 16,
    ensures
        1 <= in_use(hist, l) <= l,
        forall|k: int| in_use(hist, l) < k <= l ==> #[trigger] hist[k] <= 0,
        hist[in_use(hist, l) as int] > 0 || in_use(hist, l) == 1,
    decreases l,
{
    if !(l <= 1 || hist[l as int] > 0) {
        lemma_in_use(hist, (l - 1) as nat);
    }
}

/// Taking more codewords never takes less space.
proof fn lemma_space_nonneg(hist: Seq<int>, limit: nat, l: nat)
    requires
        bounded(hist, 15),
        l < 16,
    ensures
        space(hist, limit, l) >= 0,
        total(hist, l) >= 0,
    decreases l,
{
    if l > 0 {
        lemma_space_nonneg(hist, limit, (l - 1) as nat);
        let h = hist[l as int];
        let e = pow2((limit - l) as nat);
        assert(h * e >= 0) by (nonlinear_arith)
            requires
                h >= 0,
        ;
    }
}

/// One step of the repair works off one unit of excess.
pub proof fn lemma_split_one(hist: Seq<int>, limit: nat)
    requires
        2 <= limit <= 15,
        bounded(hist, limit),
        space(hist, limit, limit) > pow2(limit),
        space(hist, limit, (limit - 1) as nat) <= pow2(limit),
        total(hist, limit) <= pow2(limit),
    ensures
        ({
            let next = split_one(hist, limit);
            &&& bounded(next, limit)
            &&& space(next, limit, limit) == space(hist, limit, limit) - 1
            &&& space(next, limit, (limit - 1) as nat) <= pow2(limit)
            &&& total(next, limit) == total(hist, limit)
        }),
        hist[limit as int] > 0,
        hist[in_use(hist, (limit - 1) as nat) as int] > 0,
{
    let m = (limit - 1) as nat;
    bits::lemma_pow2_small();
    lemma_in_use(hist, m);
    let s = in_use(hist, m) as int;
    let top = hist[limit as int];
    assert(space(hist, limit, limit) == space(hist, limit, m) + top * pow2(0));
    bits::lemma_pow2_zero(top as nat);
    assert(top * pow2(0) == top);
    // Were no shorter length in use, the codewords would not exceed the space.
    if hist[s] <= 0 {
        assert forall|k: int| 1 <= k <= m implies #[trigger] hist[k] == 0 by {
            if k > s {
                assert(hist[k] <= 0);
            }
        }
        lemma_space_flat(hist, limit, m);
        assert(total(hist, limit) == total(hist, m) + top);
        assert(false);
    }
    let dropped = hist.update(limit as int, top - 1);
    let shrunk = dropped.update(s, dropped[s] - 1);
    let next = shrunk.update(s + 1, shrunk[s + 1] + 2);
    lemma_space_update(hist, limit, limit, limit as int, top - 1);
    lemma_space_update(hist, limit, m, limit as int, top - 1);
    lemma_space_update(dropped, limit, limit, s, dropped[s] - 1);
    lemma_space_update(dropped, limit, m, s, dropped[s] - 1);
    lemma_space_update(shrunk, limit, limit, s + 1, shrunk[s + 1] + 2);
    lemma_space_update(shrunk, limit, m, s + 1, shrunk[s + 1] + 2);
    let e = pow2((limit - (s + 1)) as nat);
    bits::lemma_pow2_step((limit - (s + 1)) as nat);
    assert((limit - (s + 1)) as nat + 1 == (limit - s) as nat);
    assert((top - 1 - top) * pow2(0) == -1) by (nonlinear_arith)
        requires
            pow2(0) == 1,
    ;
    assert((-1) * pow2((limit - s) as nat) == -(2 * e)) by (nonlinear_arith)
        requires
            pow2((limit - s) as nat) == 2 * e,
    ;
    assert(2 * e == 2 * e);
    assert((shrunk[s + 1] + 2 - shrunk[s + 1]) * e == 2 * e) by (nonlinear_arith);
    assert((dropped[s] - 1 - dropped[s]) * pow2((limit - s) as nat) == (-1) * pow2(
        (limit - s) as nat,
    ));
}

/// The repair ends with the code space taken up exactly.
pub proof fn lemma_repaired(hist: Seq<int>, limit: nat, excess: nat)
    requires
        2 <= limit <= 15,
        bounded(hist, limit),
        excess <= space(hist, limit, limit) - pow2(limit),
        space(hist, limit, (limit - 1) as nat) <= pow2(limit),
        total(hist, limit) <= pow2(limit),
    ensures
        ({
            let next = repaired(hist, limit, excess);
            &&& bounded(next, limit)
            &&& space(next, limit, limit) == space(hist, limit, limit) - excess
            &&& space(next, limit, (limit - 1) as nat) <= pow2(limit)
            &&& total(next, limit) == total(hist, limit)
        }),
    decreases excess,
{
    if excess > 0 {
        lemma_repaired(hist, limit, (excess - 1) as nat);
        lemma_split_one(repaired(hist, limit, (excess - 1) as nat), limit);
    }
}

/// Cutting depths off takes at least the space of the tree, and the depths below the ceiling
/// at most that.
pub proof fn lemma_tally(parents: Seq<int>, root: int, limit: nat, d: nat, i: nat)
    requires
        1 <= limit <= 15,
        d >= limit,
        i <= root,
        d >= root,
        forall|y: int| 0 <= y < root ==> y < #[trigger] parents[y] <= root,
    ensures
        ({
            let hist = tally(parents, root, limit, i);
            let e = pow2((d - limit) as nat);
            &&& bounded(hist, limit)
            &&& total(hist, limit) == i
            &&& e * space(hist, limit, limit) >= shares(parents, root, d, 0, i as int)
            &&& e * space(hist, limit, (limit - 1) as nat) <= shares(parents, root, d, 0, i as int)
        }),
    decreases i,
{
    let hist = tally(parents, root, limit, i);
    let e = pow2((d - limit) as nat);
    let m = (limit - 1) as nat;
    lemma_pow2_pos((d - limit) as nat);
    if i == 0 {
        lemma_space_flat(hist, limit, limit);
        lemma_space_flat(hist, limit, m);
        assert(e * 0 == 0) by (nonlinear_arith);
    } else {
        let before = tally(parents, root, limit, (i - 1) as nat);
        lemma_tally(parents, root, limit, d, (i - 1) as nat);
        lemma_depth_bound(parents, root, i - 1);
        let dep = depth(parents, root, i - 1);
        let l = cut(dep, limit) as int;
        lemma_space_update(before, limit, limit, l, before[l] + 1);
        lemma_space_update(before, limit, m, l, before[l] + 1);
        let unit = pow2((limit - l) as nat);
        assert((before[l] + 1 - before[l]) * unit == unit) by (nonlinear_arith);
        let s0 = space(before, limit, limit);
        let m0 = space(before, limit, m);
        assert(e * (s0 + unit) == e * s0 + e * unit) by (nonlinear_arith);
        assert(e * (m0 + unit) == e * m0 + e * unit) by (nonlinear_arith);
        lemma_pow2_adds((d - limit) as nat, (limit - l) as nat);
        assert((d - limit) as nat + (limit - l) as nat == (d - l) as nat);
        let own = share(parents, root, d, i - 1);
        if dep <= limit {
            assert(e * unit == own);
        } else {
            bits::lemma_pow2_monotonic((d - dep) as nat, (d - limit) as nat);
            assert(own <= e * unit);
        }
    }
}

// ---------------------------------------------------------------------------------------
// Handing the lengths out
// ---------------------------------------------------------------------------------------

/// The length of the codeword numbered `r`, counted from the shortest, where numbering starts
/// with those of length `l`.
pub open spec fn length_at(hist: Seq<int>, r: int, l: nat) -> nat
    decreases 15 - l,
{
    if l >= 15 || r < hist[l as int] {
        l
    } else {
        length_at(hist, r - hist[l as int], l + 1)
    }
}

/// The lengths once the symbols of `order` from `i` on have theirs.
pub open spec fn assigned(order: Seq<int>, hist: Seq<int>, alphabet: nat, i: nat) -> Seq<u8>
    decreases order.len() - i,
{
    if i >= order.len() {
        Seq::new(alphabet, |s: int| 0u8)
    } else {
        assigned(order, hist, alphabet, i + 1).update(
            order[i as int],
            length_at(hist, order.len() - 1 - i, 1) as u8,
        )
    }
}

/// The weights of the leaves: the frequencies of the ranked symbols.
pub open spec fn leaf_weights(freqs: Seq<u32>, order: Seq<int>) -> Seq<int> {
    Seq::new(order.len(), |i: int| freqs[order[i]] as int)
}

/// The cut-off depths of the tree over `n` leaves with the given weights, the excess worked
/// off.
pub open spec fn fitted(weights: Seq<int>, limit: nat) -> Seq<int> {
    let n = weights.len();
    let hist = tally(forest(weights, (n - 1) as nat).parents, 2 * n - 2, limit, n);
    repaired(hist, limit, (space(hist, limit, limit) - pow2(limit)) as nat)
}

/// The lengths of a code over fewer than two used symbols: the used one, or else symbol zero,
/// and the lowest symbol besides it get one bit each.
pub open spec fn padded(order: Seq<int>, alphabet: nat) -> Seq<u8> {
    let first = if order.len() == 1 {
        order[0]
    } else {
        0
    };
    let second = if first == 0 {
        1int
    } else {
        0int
    };
    Seq::new(alphabet, |s: int| 0u8).update(first, 1).update(second, 1)
}

/// The code lengths for symbols of the given frequencies, none longer than `limit`.
pub open spec fn code_lengths(freqs: Seq<u32>, limit: nat) -> Seq<u8> {
    let order = ranked(freqs, freqs.len());
    if order.len() < 2 {
        padded(order, freqs.len())
    } else {
        assigned(order, fitted(leaf_weights(freqs, order), limit), freqs.len(), 0)
    }
}

/// A codeword's number lies among those of its length.
proof fn lemma_length_at(hist: Seq<int>, limit: nat, r: int, l: nat)
    requires
        1 <= limit <= 15,
        bounded(hist, limit),
        1 <= l <= limit,
        0 <= r,
        r + total(hist, (l - 1) as nat) < total(hist, limit),
    ensures
        l <= length_at(hist, r, l) <= limit,
        total(hist, (length_at(hist, r, l) - 1) as nat) <= r + total(hist, (l - 1) as nat) < total(
            hist,
            length_at(hist, r, l),
        ),
    decreases 15 - l,
{
    if !(l >= 15 || r < hist[l as int]) {
        assert(total(hist, l) == total(hist, (l - 1) as nat) + hist[l as int]);
        lemma_length_at(hist, limit, r - hist[l as int], l + 1);
    } else if l < limit || r < hist[l as int] {
    } else {
        assert(total(hist, limit) == total(hist, (l - 1) as nat) + hist[l as int]);
    }
}

pub proof fn lemma_total_monotonic(hist: Seq<int>, a: nat, b: nat)
    requires
        bounded(hist, 15),
        a <= b < 16,
    ensures
        total(hist, a) <= total(hist, b),
    decreases b - a,
{
    if a < b {
        lemma_total_monotonic(hist, a, (b - 1) as nat);
    }
}

/// No length has more codewords than there are.
pub proof fn lemma_total_parts(hist: Seq<int>, limit: nat, l: int)
    requires
        limit <= 15,
        bounded(hist, limit),
        1 <= l <= limit,
    ensures
        hist[l] <= total(hist, limit),
{
    lemma_total_monotonic(hist, l as nat, limit);
    lemma_total_monotonic(hist, 0, (l - 1) as nat);
}

/// A number among those of length `l` is of that length.
pub proof fn lemma_length_at_unique(hist: Seq<int>, limit: nat, r: int, l: nat)
    requires
        1 <= limit <= 15,
        bounded(hist, limit),
        0 <= r < total(hist, limit),
        1 <= l <= 15,
    ensures
        length_at(hist, r, 1) == l <==> total(hist, (l - 1) as nat) <= r < total(hist, l),
{
    lemma_length_at(hist, limit, r, 1);
    let m = length_at(hist, r, 1);
    if m < l {
        lemma_total_monotonic(hist, m, (l - 1) as nat);
    } else if l < m {
        lemma_total_monotonic(hist, l, (m - 1) as nat);
    }
}

pub proof fn lemma_count_update(lengths: Seq<u8>, k: int, v: u8, l: int)
    requires
        0 <= k < lengths.len(),
    ensures
        code::count(lengths.update(k, v), l) == code::count(lengths, l) - (if lengths[k] == l {
            1int
        } else {
            0
        }) + (if v == l {
            1int
        } else {
            0
        }),
    decreases lengths.len(),
{
    let next = lengths.update(k, v);
    if k == lengths.len() - 1 {
        assert(next.drop_last() =~= lengths.drop_last());
    } else {
        assert(next.drop_last() =~= lengths.drop_last().update(k, v));
        lemma_count_update(lengths.drop_last(), k, v, l);
    }
}

/// The lengths handed out so far.
pub proof fn lemma_assigned(order: Seq<int>, hist: Seq<int>, alphabet: nat, limit: nat, i: nat)
    requires
        1 <= limit <= 15,
        bounded(hist, limit),
        total(hist, limit) == order.len(),
        order.no_duplicates(),
        forall|a: int| 0 <= a < order.len() ==> 0 <= #[trigger] order[a] < alphabet,
        i <= order.len(),
    ensures
        ({
            let lengths = assigned(order, hist, alphabet, i);
            &&& lengths.len() == alphabet
            &&& forall|a: int|
                i <= a < order.len() ==> lengths[#[trigger] order[a]] == length_at(
                    hist,
                    order.len() - 1 - a,
                    1,
                ) && 1 <= lengths[order[a]] <= limit
            &&& forall|s: int|
                0 <= s < alphabet && (forall|a: int| i <= a < order.len() ==> #[trigger] order[a] != s)
                    ==> #[trigger] lengths[s] == 0
            &&& forall|l: int|
                1 <= l <= 15 ==> #[trigger] code::count(lengths, l) == {
                    let below = total(hist, (l - 1) as nat);
                    let done = order.len() - i;
                    if done <= below {
                        0
                    } else if done >= below + hist[l] {
                        hist[l]
                    } else {
                        done - below
                    }
                }
        }),
    decreases order.len() - i,
{
    let n = order.len() as int;
    let lengths = assigned(order, hist, alphabet, i);
    if i == n {
        assert forall|l: int| 1 <= l <= 15 implies #[trigger] code::count(lengths, l) == 0 && total(
            hist,
            (l - 1) as nat,
        ) >= 0 by {
            code::lemma_count_none(lengths, l);
            lemma_total_monotonic(hist, 0, (l - 1) as nat);
        }
    } else {
        let before = assigned(order, hist, alphabet, i + 1);
        lemma_assigned(order, hist, alphabet, limit, i + 1);
        let s = order[i as int];
        let r = n - 1 - i;
        lemma_length_at(hist, limit, r, 1);
        let v = length_at(hist, r, 1) as u8;
        assert(before[s] == 0) by {
            assert(forall|a: int| i + 1 <= a < order.len() ==> #[trigger] order[a] != s);
        }
        assert forall|l: int| 1 <= l <= 15 implies #[trigger] code::count(lengths, l) == {
            let below = total(hist, (l - 1) as nat);
            let done = order.len() - i;
            if done <= below {
                0
            } else if done >= below + hist[l] {
                hist[l]
            } else {
                done - below
            }
        } by {
            lemma_count_update(before, s, v, l);
            lemma_length_at_unique(hist, limit, r, l as nat);
            assert(code::count(before, l) >= 0);
        }
        assert forall|t: int|
            0 <= t < alphabet && (forall|a: int| i <= a < order.len() ==> #[trigger] order[a] != t) implies #[trigger] lengths[t]
            == 0 by {
            assert(order[i as int] != t);
            assert(before[t] == 0);
        }
    }
}

/// A histogram that takes up the code space makes a complete code.
proof fn lemma_space_complete(lengths: Seq<u8>, hist: Seq<int>, limit: nat, l: nat)
    requires
        1 <= limit <= 15,
        1 <= l <= limit,
        bounded(hist, limit),
        forall|k: int| 1 <= k <= 15 ==> #[trigger] code::count(lengths, k) == hist[k],
    ensures
        code::used(lengths, l) * pow2((limit - l) as nat) == space(hist, limit, l),
    decreases l,
{
    let e = pow2((limit - l) as nat);
    let h = hist[l as int];
    if l == 1 {
        assert(space(hist, limit, 0) == 0);
        assert(code::used(lengths, 1) == h);
    } else {
        let k = (l - 1) as nat;
        lemma_space_complete(lengths, hist, limit, k);
        bits::lemma_pow2_step((limit - l) as nat);
        assert((limit - l) as nat + 1 == (limit - k) as nat);
        let u = code::used(lengths, k);
        assert((2 * u + h) * e == u * (2 * e) + h * e) by (nonlinear_arith);
    }
}

proof fn lemma_used_beyond(lengths: Seq<u8>, limit: nat, l: nat)
    requires
        1 <= limit <= l <= 15,
        code::used(lengths, limit) == pow2(limit),
        forall|k: int| limit < k <= 15 ==> #[trigger] code::count(lengths, k) == 0,
    ensures
        code::used(lengths, l) == pow2(l),
    decreases l,
{
    if limit < l {
        lemma_used_beyond(lengths, limit, (l - 1) as nat);
        bits::lemma_pow2_step((l - 1) as nat);
    }
}

/// What the ceiling and the repair leave: a histogram of all the codewords that takes up the
/// code space.
pub proof fn lemma_fitted(weights: Seq<int>, limit: nat)
    requires
        1 <= limit <= 15,
        2 <= weights.len() <= pow2(limit),
    ensures
        ({
            let n = weights.len();
            let hist = tally(forest(weights, (n - 1) as nat).parents, 2 * n - 2, limit, n);
            &&& bounded(hist, limit)
            &&& space(hist, limit, limit) >= pow2(limit)
            &&& space(hist, limit, (limit - 1) as nat) <= pow2(limit)
            &&& total(hist, limit) == n
            &&& limit == 1 ==> space(hist, limit, limit) == pow2(limit)
        }),
        bounded(fitted(weights, limit), limit),
        space(fitted(weights, limit), limit, limit) == pow2(limit),
        total(fitted(weights, limit), limit) == weights.len(),
{
    let n = weights.len();
    let p = forest(weights, (n - 1) as nat).parents;
    let d = (2 * n + 15) as nat;
    lemma_leaf_shares(weights, d);
    lemma_tally(p, 2 * n - 2, limit, d, n);
    let hist = tally(p, 2 * n - 2, limit, n);
    let e = pow2((d - limit) as nat);
    lemma_pow2_pos((d - limit) as nat);
    lemma_pow2_adds((d - limit) as nat, limit);
    let all = space(hist, limit, limit);
    let short = space(hist, limit, (limit - 1) as nat);
    assert(all >= pow2(limit)) by (nonlinear_arith)
        requires
            e * all >= e * pow2(limit),
            e > 0,
    ;
    assert(short <= pow2(limit)) by (nonlinear_arith)
        requires
            e * short <= e * pow2(limit),
            e > 0,
    ;
    if limit == 1 {
        bits::lemma_pow2_small();
        bits::lemma_pow2_zero(hist[1] as nat);
        assert(total(hist, 1) == total(hist, 0) + hist[1]);
        assert(space(hist, 1, 1) == space(hist, 1, 0) + hist[1] * pow2(0));
        assert(hist[1] * pow2(0) == pow2(0) * hist[1]) by (nonlinear_arith);
    } else {
        lemma_repaired(hist, limit, (all - pow2(limit)) as nat);
    }
}

/// The lengths form a complete code within the ceiling that gives every used symbol a
/// codeword, no symbol a longer one than a rarer symbol, and, where at least two symbols are
/// used, none to an unused one.
pub proof fn law_code_lengths(freqs: Seq<u32>, limit: nat)
    requires
        2 <= freqs.len(),
        1 <= limit <= 15,
        ranked(freqs, freqs.len()).len() <= pow2(limit),
    ensures
        ({
            let lengths = code_lengths(freqs, limit);
            &&& lengths.len() == freqs.len()
            &&& code::complete(lengths)
            &&& forall|s: int| 0 <= s < freqs.len() ==> #[trigger] lengths[s] <= limit
            &&& forall|s: int| 0 <= s < freqs.len() && freqs[s] > 0 ==> #[trigger] lengths[s] > 0
            &&& ranked(freqs, freqs.len()).len() >= 2 ==> forall|s: int|
                0 <= s < freqs.len() && freqs[s] == 0 ==> #[trigger] lengths[s] == 0
            &&& forall|s: int, t: int|
                0 <= s < freqs.len() && 0 <= t < freqs.len() && 0 < freqs[s] < freqs[t]
                    ==> #[trigger] lengths[t] <= #[trigger] lengths[s]
        }),
{
    let order = ranked(freqs, freqs.len());
    let lengths = code_lengths(freqs, limit);
    lemma_ranked(freqs, freqs.len());
    bits::lemma_pow2_small();
    bits::lemma_pow2_monotonic(1, limit);
    if order.len() < 2 {
        let first = if order.len() == 1 {
            order[0]
        } else {
            0
        };
        let second = if first == 0 {
            1int
        } else {
            0int
        };
        let none = Seq::new(freqs.len(), |s: int| 0u8);
        assert forall|l: int| 1 <= l <= 15 implies #[trigger] code::count(none, l) == 0 by {
            code::lemma_count_none(none, l);
        }
        assert forall|l: int| 1 <= l <= 15 implies #[trigger] code::count(lengths, l) == if l == 1 {
            2int
        } else {
            0
        } by {
            lemma_count_update(none, first, 1, l);
            lemma_count_update(none.update(first, 1), second, 1, l);
            assert(code::count(none, l) == 0);
        }
        assert(code::used(lengths, 1) == 2);
        lemma_used_beyond(lengths, 1, 15);
        assert forall|s: int| 0 <= s < freqs.len() && freqs[s] > 0 implies #[trigger] lengths[s] > 0 by {
            assert(order.contains(s));
        }
    } else {
        let weights = leaf_weights(freqs, order);
        let hist = fitted(weights, limit);
        lemma_fitted(weights, limit);
        lemma_assigned(order, hist, freqs.len(), limit, 0);
        assert forall|l: int| 1 <= l <= 15 implies #[trigger] code::count(lengths, l) == hist[l] by {
            lemma_total_monotonic(hist, 0, (l - 1) as nat);
            if l <= limit {
                lemma_total_monotonic(hist, l as nat, limit);
            }
        }
        lemma_space_complete(lengths, hist, limit, limit);
        bits::lemma_pow2_zero(code::used(lengths, limit));
        assert(code::used(lengths, limit) * pow2(0) == pow2(0) * code::used(lengths, limit))
            by (nonlinear_arith);
        lemma_used_beyond(lengths, limit, 15);
        assert forall|s: int| 0 <= s < freqs.len() implies #[trigger] lengths[s] <= limit && (freqs[s]
            > 0 ==> lengths[s] > 0) && (freqs[s] == 0 ==> lengths[s] == 0) by {
            if order.contains(s) {
                let a = choose|a: int| 0 <= a < order.len() && order[a] == s;
                assert(lengths[order[a]] <= limit);
            } else {
                assert forall|a: int| 0 <= a < order.len() implies #[trigger] order[a] != s by {
                    assert(order.contains(order[a]));
                }
                assert(lengths[s] == 0);
            }
        }
        assert forall|s: int, t: int|
            0 <= s < freqs.len() && 0 <= t < freqs.len() && 0 < freqs[s] < freqs[t] implies #[trigger] lengths[t]
            <= #[trigger] lengths[s] by {
            assert(order.contains(s) && order.contains(t));
            let a = choose|a: int| 0 <= a < order.len() && order[a] == s;
            let b = choose|b: int| 0 <= b < order.len() && order[b] == t;
            if b <= a {
                assert(freqs[order[b]] <= freqs[order[a]]);
            }
            let n = order.len() as int;
            assert(lengths[order[a]] == length_at(hist, n - 1 - a, 1));
            assert(lengths[order[b]] == length_at(hist, n - 1 - b, 1));
            lemma_length_at(hist, limit, n - 1 - a, 1);
            lemma_length_at(hist, limit, n - 1 - b, 1);
            let la = length_at(hist, n - 1 - a, 1);
            let lb = length_at(hist, n - 1 - b, 1);
            if lb > la {
                lemma_total_monotonic(hist, la, (lb - 1) as nat);
            }
        }
    }
}

} // verus!
