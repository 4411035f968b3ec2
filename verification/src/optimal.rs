//! No code is shorter than the one fitted to the frequencies.
//!
//! Where the ceiling cuts nothing off, the lengths of [`crate::tree`] make the coded symbols
//! take as few bits as any lengths that fit the code space would.

use vstd::prelude::*;
use vstd::arithmetic::div_mod::*;
use vstd::arithmetic::power2::*;
use crate::bits;
use crate::code;
use crate::tree;
use crate::tree::{forest, joined, lightest, merged, taken, weight_sum, Forest};

verus! {

// ---------------------------------------------------------------------------------------
// Sums over the roots of a forest
// ---------------------------------------------------------------------------------------

/// What each node contributes to the length of the coded data.
spec fn products(weights: Seq<int>, lengths: Seq<nat>) -> Seq<int> {
    Seq::new(weights.len(), |i: int| weights[i] * lengths[i])
}

/// The code space that each node takes, in units of `2^-d`.
spec fn spaces(lengths: Seq<nat>, d: nat) -> Seq<int> {
    Seq::new(lengths.len(), |i: int| pow2((d - lengths[i]) as nat) as int)
}

/// Whether `r` is a root of a forest over `n` leaves with `end` nodes.
spec fn is_root(f: Forest, n: int, end: int, r: int) -> bool {
    f.leaf <= r < n || f.node <= r < end
}

/// The values of the roots together.
spec fn over_roots(x: Seq<int>, f: Forest, n: int, end: int) -> int {
    weight_sum(x, f.leaf, n) + weight_sum(x, f.node, end)
}

/// Whether the numbers of a forest's roots are those of nodes.
spec fn ranges(f: Forest, n: int, end: int) -> bool {
    0 <= f.leaf <= n <= f.node <= end
}

proof fn lemma_sum_update(x: Seq<int>, lo: int, hi: int, r: int, v: int)
    requires
        0 <= lo,
        hi <= x.len(),
        0 <= r < x.len(),
    ensures
        weight_sum(x.update(r, v), lo, hi) == weight_sum(x, lo, hi) + (if lo <= r < hi {
            v - x[r]
        } else {
            0
        }),
    decreases hi - lo,
{
    if lo < hi {
        lemma_sum_update(x, lo + 1, hi, r, v);
    }
}

proof fn lemma_roots_update(x: Seq<int>, f: Forest, n: int, end: int, r: int, v: int)
    requires
        ranges(f, n, end),
        end <= x.len(),
        is_root(f, n, end, r),
    ensures
        over_roots(x.update(r, v), f, n, end) == over_roots(x, f, n, end) + v - x[r],
{
    lemma_sum_update(x, f.leaf, n, r, v);
    lemma_sum_update(x, f.node, end, r, v);
}

/// Taking a root up takes its value off the sum.
proof fn lemma_taken(x: Seq<int>, f: Forest, n: int)
    requires
        ranges(f, n, f.weights.len() as int),
        f.leaf < n || f.node < f.weights.len(),
        f.weights.len() <= x.len(),
    ensures
        ({
            let end = f.weights.len() as int;
            let a = lightest(f, n);
            &&& is_root(f, n, end, a)
            &&& ranges(taken(f, n), n, end)
            &&& taken(f, n).weights == f.weights
            &&& over_roots(x, f, n, end) == x[a] + over_roots(x, taken(f, n), n, end)
            &&& forall|r: int|
                #[trigger] is_root(taken(f, n), n, end, r) <==> is_root(f, n, end, r) && r != a
        }),
{
}

// ---------------------------------------------------------------------------------------
// The lightest roots
// ---------------------------------------------------------------------------------------

/// Whether values ascend from `lo` to `hi`.
spec fn ascend(x: Seq<int>, lo: int, hi: int) -> bool {
    forall|i: int, j: int| lo <= i <= j < hi ==> #[trigger] x[i] <= #[trigger] x[j]
}

/// The root that is taken up is one of the lightest.
proof fn lemma_lightest(f: Forest, n: int, r: int)
    requires
        ranges(f, n, f.weights.len() as int),
        ascend(f.weights, 0, n),
        ascend(f.weights, n, f.weights.len() as int),
        is_root(f, n, f.weights.len() as int, r),
    ensures
        f.weights[lightest(f, n)] <= f.weights[r],
{
}

/// Merged nodes come in ascending order of weight. No root is lighter than `m`, and the last
/// merged node weighs no more than twice that.
proof fn lemma_ascending(weights: Seq<int>, k: nat) -> (m: int)
    requires
        weights.len() >= 2,
        k <= weights.len() - 1,
        ascend(weights, 0, weights.len() as int),
        forall|i: int| 0 <= i < weights.len() ==> 0 <= #[trigger] weights[i],
    ensures
        ({
            let n = weights.len() as int;
            let f = forest(weights, k);
            &&& m >= 0
            &&& ascend(f.weights, 0, n)
            &&& ascend(f.weights, n, n + k)
            &&& forall|r: int| #[trigger] is_root(f, n, n + k, r) ==> f.weights[r] >= m
            &&& k > 0 ==> f.weights[n + k - 1] <= 2 * m
        }),
    decreases k,
{
    let n = weights.len() as int;
    let f = forest(weights, k);
    tree::lemma_forest(weights, k);
    if k == 0 {
        0
    } else {
        let j = (k - 1) as nat;
        let g = forest(weights, j);
        let least = lemma_ascending(weights, j);
        tree::lemma_forest(weights, j);
        tree::lemma_merged(g, n, j as int);
        let (a, b) = joined(g, n);
        let mid = taken(g, n);
        lemma_taken(g.weights, g, n);
        lemma_taken(g.weights, mid, n);
        assert(is_root(g, n, n + j, a));
        assert(is_root(g, n, n + j, b));
        lemma_lightest(g, n, b);
        let m = g.weights[b];
        assert(f.weights == g.weights.push(g.weights[a] + g.weights[b]));
        assert forall|r: int| #[trigger] is_root(f, n, n + k, r) implies f.weights[r] >= m by {
            if r < n + j {
                assert(is_root(taken(mid, n), n, n + j, r));
                assert(is_root(mid, n, n + j, r));
                lemma_lightest(mid, n, r);
            }
        }
        assert forall|p: int, q: int| n <= p <= q < n + k implies #[trigger] f.weights[p]
            <= #[trigger] f.weights[q] by {
            if q == n + j && p < q {
                assert(g.weights[p] <= g.weights[n + j - 1]);
            }
        }
        m
    }
}

// ---------------------------------------------------------------------------------------
// No lengths do better
// ---------------------------------------------------------------------------------------

/// Lengths with those of two nodes exchanged.
spec fn exchanged(lengths: Seq<nat>, a: int, r: int) -> Seq<nat> {
    lengths.update(a, lengths[r]).update(r, lengths[a])
}

/// Giving a lighter node the longer codeword costs nothing.
proof fn lemma_exchange(lengths: Seq<nat>, d: nat, f: Forest, n: int, a: int, r: int)
    requires
        ranges(f, n, f.weights.len() as int),
        lengths.len() == f.weights.len(),
        is_root(f, n, f.weights.len() as int, a),
        is_root(f, n, f.weights.len() as int, r),
        f.weights[a] <= f.weights[r],
        lengths[a] <= lengths[r],
    ensures
        ({
            let end = f.weights.len() as int;
            let next = exchanged(lengths, a, r);
            &&& over_roots(products(f.weights, next), f, n, end) <= over_roots(
                products(f.weights, lengths),
                f,
                n,
                end,
            )
            &&& over_roots(spaces(next, d), f, n, end) == over_roots(spaces(lengths, d), f, n, end)
        }),
{
    let end = f.weights.len() as int;
    let w = f.weights;
    let next = exchanged(lengths, a, r);
    if a == r {
        assert(next =~= lengths);
    } else {
        let x = products(w, lengths);
        let y = spaces(lengths, d);
        assert(products(w, next) =~= x.update(a, w[a] * lengths[r]).update(r, w[r] * lengths[a]));
        assert(spaces(next, d) =~= y.update(a, y[r]).update(r, y[a]));
        lemma_roots_update(x, f, n, end, a, w[a] * lengths[r]);
        lemma_roots_update(x.update(a, w[a] * lengths[r]), f, n, end, r, w[r] * lengths[a]);
        lemma_roots_update(y, f, n, end, a, y[r]);
        lemma_roots_update(y.update(a, y[r]), f, n, end, r, y[a]);
        let (wa, wr, la, lr) = (w[a], w[r], lengths[a] as int, lengths[r] as int);
        assert(wa * lr + wr * la <= wa * la + wr * lr) by (nonlinear_arith)
            requires
                wa <= wr,
                la <= lr,
        ;
    }
}

/// The longest of some lengths.
proof fn lemma_longest_between(lengths: Seq<nat>, lo: int, hi: int) -> (r: int)
    requires
        0 <= lo < hi <= lengths.len(),
    ensures
        lo <= r < hi,
        forall|s: int| lo <= s < hi ==> #[trigger] lengths[s] <= lengths[r],
    decreases hi - lo,
{
    if lo + 1 == hi {
        lo
    } else {
        let r = lemma_longest_between(lengths, lo + 1, hi);
        if lengths[lo] <= lengths[r] {
            r
        } else {
            lo
        }
    }
}

/// The root with the longest codeword.
proof fn lemma_longest(lengths: Seq<nat>, f: Forest, n: int, end: int) -> (r: int)
    requires
        ranges(f, n, end),
        end <= lengths.len(),
        f.leaf < n || f.node < end,
    ensures
        is_root(f, n, end, r),
        forall|s: int| #[trigger] is_root(f, n, end, s) ==> lengths[s] <= lengths[r],
{
    if f.leaf >= n {
        lemma_longest_between(lengths, f.node, end)
    } else if f.node >= end {
        lemma_longest_between(lengths, f.leaf, n)
    } else {
        let p = lemma_longest_between(lengths, f.leaf, n);
        let q = lemma_longest_between(lengths, f.node, end);
        if lengths[p] <= lengths[q] {
            q
        } else {
            p
        }
    }
}

/// Multiples of a number sum up to a multiple.
proof fn lemma_sum_multiple(x: Seq<int>, lo: int, hi: int, q: int)
    requires
        0 <= lo,
        hi <= x.len(),
        q > 0,
        forall|i: int| lo <= i < hi ==> #[trigger] x[i] % q == 0,
    ensures
        weight_sum(x, lo, hi) % q == 0,
    decreases hi - lo,
{
    if lo < hi {
        lemma_sum_multiple(x, lo + 1, hi, q);
        assert(x[lo] % q == 0);
        lemma_mod_adds(x[lo], weight_sum(x, lo + 1, hi), q);
    } else {
        lemma_small_mod(0, q as nat);
    }
}

/// A larger power of two is a multiple of a smaller one.
proof fn lemma_pow2_multiple(a: nat, b: nat)
    requires
        a <= b,
    ensures
        pow2(b) as int % pow2(a) as int == 0,
        pow2(a) > 0,
{
    lemma_pow2_pos(a);
    lemma_pow2_adds(a, (b - a) as nat);
    lemma_mod_multiples_basic(pow2((b - a) as nat) as int, pow2(a) as int);
}

/// Where one codeword is longer than all others, it can be as short as the next one: `rest`
/// is what the others take of a space of `whole` units, and `q` what the next one takes.
proof fn lemma_room(rest: int, own: int, whole: int, q: int)
    requires
        q > 0,
        own > 0,
        rest % q == 0,
        whole % q == 0,
        rest + own <= whole,
    ensures
        rest + q <= whole,
{
    let gap = whole - rest;
    assert(gap % q == 0) by {
        lemma_mod_difference(whole, rest, q);
    }
    if gap < q {
        lemma_small_mod(gap as nat, q as nat);
    }
}

proof fn lemma_mod_difference(x: int, y: int, q: int)
    requires
        q > 0,
        x % q == 0,
        y % q == 0,
    ensures
        (x - y) % q == 0,
{
    lemma_sub_mod_noop(x, y, q);
    lemma_small_mod(0, q as nat);
}

/// Whether lengths fit the code space: what the roots take is no more than there is.
spec fn fit(lengths: Seq<nat>, d: nat, f: Forest, n: int) -> bool {
    let end = f.weights.len() as int;
    &&& lengths.len() == end
    &&& forall|r: int| #[trigger] is_root(f, n, end, r) ==> lengths[r] <= d
    &&& over_roots(spaces(lengths, d), f, n, end) <= pow2(d)
}

/// What the roots of a forest cost.
spec fn root_cost(lengths: Seq<nat>, f: Forest, n: int) -> int {
    over_roots(products(f.weights, lengths), f, n, f.weights.len() as int)
}

/// Whether a forest is ready for two of its roots to be merged.
spec fn ready(f: Forest, n: int, k: int) -> bool {
    &&& tree::sound(f, n, k)
    &&& 0 <= k < n - 1
    &&& ascend(f.weights, 0, n)
    &&& ascend(f.weights, n, n + k)
    &&& forall|i: int| 0 <= i < n + k ==> 0 <= #[trigger] f.weights[i]
}

/// The two lightest roots can have the two longest codewords.
proof fn lemma_deepest(lengths: Seq<nat>, d: nat, f: Forest, n: int, k: int) -> (next: Seq<nat>)
    requires
        ready(f, n, k),
        fit(lengths, d, f, n),
    ensures
        fit(next, d, f, n),
        root_cost(next, f, n) <= root_cost(lengths, f, n),
        ({
            let (a, b) = joined(f, n);
            &&& next[b] <= next[a]
            &&& forall|r: int|
                #[trigger] is_root(taken(f, n), n, n + k, r) ==> next[r] <= next[b]
        }),
{
    let end = n + k;
    let (a, b) = joined(f, n);
    let mid = taken(f, n);
    lemma_taken(f.weights, f, n);
    lemma_taken(f.weights, mid, n);
    let r = lemma_longest(lengths, f, n, end);
    lemma_lightest(f, n, r);
    assert(is_root(f, n, end, a));
    lemma_exchange(lengths, d, f, n, a, r);
    let first = exchanged(lengths, a, r);
    assert forall|s: int| #[trigger] is_root(f, n, end, s) implies first[s] <= first[a] && first[s]
        <= d by {
        assert(is_root(f, n, end, r));
    }
    let s = lemma_longest(first, mid, n, end);
    lemma_lightest(mid, n, s);
    assert(is_root(mid, n, end, b));
    assert(is_root(f, n, end, b));
    assert(is_root(f, n, end, s));
    lemma_exchange(first, d, f, n, b, s);
    let next = exchanged(first, b, s);
    assert forall|t: int| #[trigger] is_root(mid, n, end, t) implies next[t] <= next[b] by {
        assert(is_root(mid, n, end, s));
    }
    assert forall|t: int| #[trigger] is_root(f, n, end, t) implies next[t] <= d by {
        assert(is_root(f, n, end, s));
    }
    assert(next[a] == first[a]);
    next
}

/// What the roots of a forest take is a multiple of what the longest codeword takes.
proof fn lemma_roots_multiple(lengths: Seq<nat>, d: nat, f: Forest, n: int, end: int, most: nat)
    requires
        ranges(f, n, end),
        end <= lengths.len(),
        most <= d,
        forall|r: int| #[trigger] is_root(f, n, end, r) ==> lengths[r] <= most,
    ensures
        over_roots(spaces(lengths, d), f, n, end) % (pow2((d - most) as nat) as int) == 0,
        over_roots(spaces(lengths, d), f, n, end) >= 0,
{
    let y = spaces(lengths, d);
    let q = pow2((d - most) as nat) as int;
    lemma_pow2_pos((d - most) as nat);
    assert forall|i: int| is_root(f, n, end, i) implies #[trigger] y[i] % q == 0 && y[i] >= 0 by {
        lemma_pow2_multiple((d - most) as nat, (d - lengths[i]) as nat);
    }
    lemma_sum_multiple(y, f.leaf, n, q);
    lemma_sum_multiple(y, f.node, end, q);
    lemma_mod_adds(weight_sum(y, f.leaf, n), weight_sum(y, f.node, end), q);
    tree::lemma_weight_sum_nonneg(y, f.leaf, n);
    tree::lemma_weight_sum_nonneg(y, f.node, end);
}

/// The two lightest roots can have codewords of one length, the longest of all.
proof fn lemma_level(lengths: Seq<nat>, d: nat, f: Forest, n: int, k: int) -> (next: Seq<nat>)
    requires
        ready(f, n, k),
        fit(lengths, d, f, n),
    ensures
        fit(next, d, f, n),
        root_cost(next, f, n) <= root_cost(lengths, f, n),
        next[joined(f, n).0] == next[joined(f, n).1],
        next[joined(f, n).1] >= 1,
{
    let end = n + k;
    let (a, b) = joined(f, n);
    let mid = taken(f, n);
    let deep = lemma_deepest(lengths, d, f, n, k);
    let w = f.weights;
    let x = products(w, deep);
    let y = spaces(deep, d);
    lemma_taken(y, f, n);
    lemma_taken(y, mid, n);
    assert(is_root(f, n, end, a));
    assert(is_root(mid, n, end, b));
    assert(is_root(f, n, end, b));
    let most = deep[b];
    let q = pow2((d - most) as nat) as int;
    let rest = over_roots(y, mid, n, end);
    lemma_roots_multiple(deep, d, mid, n, end, most);
    assert forall|r: int| #[trigger] is_root(taken(mid, n), n, end, r) implies deep[r] <= most by {
        assert(is_root(mid, n, end, r));
    }
    lemma_roots_multiple(deep, d, taken(mid, n), n, end, most);
    lemma_pow2_multiple((d - most) as nat, d);
    lemma_pow2_pos((d - deep[a]) as nat);
    lemma_room(rest, y[a], pow2(d) as int, q);
    let next = deep.update(a, most);
    assert(spaces(next, d) =~= y.update(a, q));
    assert(products(w, next) =~= x.update(a, w[a] * most));
    lemma_roots_update(y, f, n, end, a, q);
    lemma_roots_update(x, f, n, end, a, w[a] * most);
    let (wa, la, lb) = (w[a], deep[a] as int, most as int);
    assert(wa * lb <= wa * la) by (nonlinear_arith)
        requires
            wa >= 0,
            lb <= la,
    ;
    assert(rest >= y[b]);
    if most == 0 {
        lemma_pow2_pos(d);
    }
    next
}

/// The roots of a merged forest are those that were left over, and the new node.
proof fn lemma_roots_merged(x: Seq<int>, f: Forest, n: int, k: int)
    requires
        ready(f, n, k),
        x.len() == n + k + 1,
    ensures
        ({
            let g = merged(f, n);
            let (a, b) = joined(f, n);
            &&& over_roots(x, g, n, n + k + 1) == over_roots(x, f, n, n + k) - x[a] - x[b] + x[n
                + k]
            &&& forall|r: int|
                #[trigger] is_root(g, n, n + k + 1, r) ==> r == n + k || is_root(f, n, n + k, r)
        }),
{
    let mid = taken(f, n);
    let left = taken(mid, n);
    lemma_taken(x, f, n);
    lemma_taken(x, mid, n);
    tree::lemma_weight_sum_end(x, left.node, n + k);
    let g = merged(f, n);
    assert(g.leaf == left.leaf && g.node == left.node);
    assert forall|r: int| #[trigger] is_root(g, n, n + k + 1, r) implies r == n + k || is_root(
        f,
        n,
        n + k,
        r,
    ) by {
        if r != n + k {
            assert(is_root(left, n, n + k, r));
            assert(is_root(mid, n, n + k, r));
        }
    }
}

/// Two codewords of one length make room for one that is a bit shorter.
proof fn lemma_joined(lengths: Seq<nat>, d: nat, f: Forest, n: int, k: int)
    requires
        ready(f, n, k),
        fit(lengths, d, f, n),
        lengths[joined(f, n).0] == lengths[joined(f, n).1],
        lengths[joined(f, n).1] >= 1,
    ensures
        ({
            let g = merged(f, n);
            let next = lengths.push((lengths[joined(f, n).1] - 1) as nat);
            &&& fit(next, d, g, n)
            &&& root_cost(next, g, n) + g.weights[n + k] == root_cost(lengths, f, n)
        }),
{
    let (a, b) = joined(f, n);
    let g = merged(f, n);
    let l = lengths[b];
    let next = lengths.push((l - 1) as nat);
    tree::lemma_merged(f, n, k);
    lemma_taken(f.weights, f, n);
    lemma_taken(f.weights, taken(f, n), n);
    assert(is_root(f, n, n + k, a));
    assert(is_root(f, n, n + k, b));
    let x = products(f.weights, lengths);
    let x2 = products(g.weights, next);
    let y = spaces(lengths, d);
    let y2 = spaces(next, d);
    lemma_roots_merged(x2, f, n, k);
    lemma_roots_merged(y2, f, n, k);
    tree::lemma_weight_sum_same(x, x2, f.leaf, n);
    tree::lemma_weight_sum_same(x, x2, f.node, n + k);
    tree::lemma_weight_sum_same(y, y2, f.leaf, n);
    tree::lemma_weight_sum_same(y, y2, f.node, n + k);
    bits::lemma_pow2_step((d - l) as nat);
    assert((d - l) as nat + 1 == (d - (l - 1)) as nat);
    let (wa, wb, m) = (f.weights[a], f.weights[b], l as int);
    assert((wa + wb) * (m - 1) + (wa + wb) == wa * m + wb * m) by (nonlinear_arith);
    assert(x2[a] == wa * m && x2[b] == wb * m);
    assert(x2[n + k] == (wa + wb) * (m - 1));
    assert forall|r: int| #[trigger] is_root(g, n, n + k + 1, r) implies next[r] <= d by {
        if r != n + k {
            assert(is_root(f, n, n + k, r));
        }
    }
}

/// The weights of the nodes that are merged from the `k`-th merge on.
spec fn made(weights: Seq<int>, k: nat) -> int
    decreases weights.len() - k,
{
    if k + 1 >= weights.len() {
        0
    } else {
        forest(weights, k + 1).weights[(weights.len() + k) as int] + made(weights, k + 1)
    }
}

proof fn lemma_ready(weights: Seq<int>, k: nat)
    requires
        weights.len() >= 2,
        k < weights.len() - 1,
        ascend(weights, 0, weights.len() as int),
        forall|i: int| 0 <= i < weights.len() ==> 0 <= #[trigger] weights[i],
    ensures
        ready(forest(weights, k), weights.len() as int, k as int),
{
    tree::lemma_forest(weights, k);
    tree::lemma_root_weights(weights, k);
    let m = lemma_ascending(weights, k);
}

/// Whatever lengths the roots have that fit, they cost as much as all merges to come.
proof fn lemma_lower_bound(weights: Seq<int>, k: nat, lengths: Seq<nat>, d: nat)
    requires
        weights.len() >= 2,
        k <= weights.len() - 1,
        ascend(weights, 0, weights.len() as int),
        forall|i: int| 0 <= i < weights.len() ==> 0 <= #[trigger] weights[i],
        fit(lengths, d, forest(weights, k), weights.len() as int),
    ensures
        root_cost(lengths, forest(weights, k), weights.len() as int) >= made(weights, k),
    decreases weights.len() - k,
{
    let n = weights.len() as int;
    let f = forest(weights, k);
    tree::lemma_forest(weights, k);
    if k + 1 < n {
        lemma_ready(weights, k);
        let level = lemma_level(lengths, d, f, n, k as int);
        lemma_joined(level, d, f, n, k as int);
        let next = level.push((level[joined(f, n).1] - 1) as nat);
        lemma_lower_bound(weights, k + 1, next, d);
    } else {
        tree::lemma_root_weights(weights, k);
        let x = products(f.weights, lengths);
        assert forall|i: int| 0 <= i < x.len() implies 0 <= #[trigger] x[i] by {
            let (w, l) = (f.weights[i], lengths[i] as int);
            assert(w * l >= 0) by (nonlinear_arith)
                requires
                    w >= 0,
                    l >= 0,
            ;
        }
        tree::lemma_weight_sum_nonneg(x, f.leaf, n);
        tree::lemma_weight_sum_nonneg(x, f.node, n + k);
    }
}

// ---------------------------------------------------------------------------------------
// The tree attains it
// ---------------------------------------------------------------------------------------

/// The depths of the first `count` nodes in the finished tree.
spec fn depths(weights: Seq<int>, count: nat) -> Seq<nat> {
    let n = weights.len();
    let p = forest(weights, (n - 1) as nat).parents;
    Seq::new(count, |i: int| tree::depth(p, 2 * n - 2, i))
}

/// At the depths of the finished tree, the roots cost as much as all merges to come.
#[verifier::rlimit(30)]
proof fn lemma_attained(weights: Seq<int>, k: nat)
    requires
        weights.len() >= 2,
        k <= weights.len() - 1,
        ascend(weights, 0, weights.len() as int),
        forall|i: int| 0 <= i < weights.len() ==> 0 <= #[trigger] weights[i],
    ensures
        root_cost(depths(weights, weights.len() + k), forest(weights, k), weights.len() as int)
            == made(weights, k),
    decreases weights.len() - k,
{
    let n = weights.len() as int;
    let f = forest(weights, k);
    let last = (n - 1) as nat;
    let whole = forest(weights, last);
    let p = whole.parents;
    let lengths = depths(weights, (n + k) as nat);
    tree::lemma_forest(weights, k);
    tree::lemma_forest(weights, last);
    if k + 1 < n {
        let g = forest(weights, k + 1);
        lemma_attained(weights, k + 1);
        lemma_ready(weights, k);
        tree::lemma_forest(weights, k + 1);
        tree::lemma_merged(f, n, k as int);
        let (a, b) = joined(f, n);
        tree::lemma_parents_stay(weights, k + 1, last, a);
        tree::lemma_parents_stay(weights, k + 1, last, b);
        assert(p[a] == n + k && p[b] == n + k);
        let next = depths(weights, (n + k + 1) as nat);
        let x = products(f.weights, lengths);
        let x2 = products(g.weights, next);
        lemma_roots_merged(x2, f, n, k as int);
        tree::lemma_weight_sum_same(x, x2, f.leaf, n);
        tree::lemma_weight_sum_same(x, x2, f.node, n + k);
        let m = next[n + k] as int;
        assert(next[a] == m + 1 && next[b] == m + 1);
        let (wa, wb) = (f.weights[a], f.weights[b]);
        assert((wa + wb) * m + (wa + wb) == wa * (m + 1) + wb * (m + 1)) by (nonlinear_arith);
        assert(x2[a] == wa * (m + 1) && x2[b] == wb * (m + 1));
        assert(x2[n + k] == (wa + wb) * m);
    } else {
        let x = products(f.weights, lengths);
        assert(f.leaf == n && f.node == 2 * n - 2);
        assert(lengths[2 * n - 2] == 0);
        assert(x[2 * n - 2] == 0) by {
            let w = f.weights[2 * n - 2];
            assert(w * 0 == 0) by (nonlinear_arith);
        }
        reveal_with_fuel(weight_sum, 2);
    }
}

// ---------------------------------------------------------------------------------------
// The lengths are the depths
// ---------------------------------------------------------------------------------------

/// Nodes that are taken up later get later parents.
proof fn lemma_parents_ascend(weights: Seq<int>, k: nat)
    requires
        weights.len() >= 2,
        k <= weights.len() - 1,
    ensures
        ({
            let n = weights.len() as int;
            let f = forest(weights, k);
            &&& ascend(f.parents, 0, f.leaf)
            &&& ascend(f.parents, n, f.node)
        }),
    decreases k,
{
    let n = weights.len() as int;
    let f = forest(weights, k);
    if k > 0 {
        let j = (k - 1) as nat;
        let g = forest(weights, j);
        lemma_parents_ascend(weights, j);
        tree::lemma_forest(weights, j);
        tree::lemma_forest(weights, k);
        tree::lemma_merged(g, n, j as int);
        assert forall|x: int, y: int|
            (0 <= x <= y < f.leaf || n <= x <= y < f.node) implies #[trigger] f.parents[x]
            <= #[trigger] f.parents[y] by {
            assert(tree::inner(f, n, x) && tree::inner(f, n, y));
            if tree::inner(g, n, y) {
                assert(tree::inner(g, n, x));
                assert(g.parents[x] <= g.parents[y]);
            }
        }
    }
}

/// Nodes that are taken up later lie no deeper.
proof fn lemma_depths_descend(weights: Seq<int>, x: int, y: int)
    requires
        weights.len() >= 2,
        0 <= x <= y < weights.len() || weights.len() <= x <= y <= 2 * weights.len() - 2,
    ensures
        ({
            let n = weights.len() as int;
            let p = forest(weights, (n - 1) as nat).parents;
            tree::depth(p, 2 * n - 2, y) <= tree::depth(p, 2 * n - 2, x)
        }),
    decreases 2 * weights.len() - x,
{
    let n = weights.len() as int;
    let root = 2 * n - 2;
    let whole = forest(weights, (n - 1) as nat);
    let p = whole.parents;
    tree::lemma_forest(weights, (n - 1) as nat);
    if y < root {
        lemma_parents_ascend(weights, (n - 1) as nat);
        assert(tree::inner(whole, n, x) && tree::inner(whole, n, y));
        assert(p[x] <= p[y]);
        lemma_depths_descend(weights, p[x], p[y]);
    }
}

/// How many of the first `i` leaves lie no deeper than `l`.
spec fn no_deeper(parents: Seq<int>, root: int, i: nat, l: nat) -> int
    decreases i,
{
    if i == 0 {
        0
    } else {
        no_deeper(parents, root, (i - 1) as nat, l) + if tree::depth(parents, root, i - 1) <= l {
            1int
        } else {
            0
        }
    }
}

/// Whether no leaf of the tree lies deeper than the ceiling.
spec fn within(parents: Seq<int>, root: int, i: nat, limit: nat) -> bool {
    forall|j: int| 0 <= j < i ==> #[trigger] tree::depth(parents, root, j) <= limit
}

/// Where nothing is cut off, the tally counts the leaves by their depths and takes the space
/// of the tree.
proof fn lemma_tally_exact(parents: Seq<int>, root: int, limit: nat, d: nat, i: nat)
    requires
        1 <= limit <= 15,
        d >= limit,
        i <= root,
        d >= root,
        forall|y: int| 0 <= y < root ==> y < #[trigger] parents[y] <= root,
        within(parents, root, i, limit),
    ensures
        ({
            let hist = tree::tally(parents, root, limit, i);
            let e = pow2((d - limit) as nat);
            &&& tree::bounded(hist, limit)
            &&& e * tree::space(hist, limit, limit) == tree::shares(parents, root, d, 0, i as int)
            &&& forall|l: nat|
                l <= limit ==> #[trigger] tree::total(hist, l) == no_deeper(parents, root, i, l)
        }),
    decreases i,
{
    let hist = tree::tally(parents, root, limit, i);
    let e = pow2((d - limit) as nat);
    tree::lemma_tally(parents, root, limit, d, i);
    if i == 0 {
        assert forall|l: nat| l <= limit implies #[trigger] tree::total(hist, l) == 0 by {
            tree::lemma_space_flat(hist, limit, l);
        }
        tree::lemma_space_flat(hist, limit, limit);
        assert(e * 0 == 0) by (nonlinear_arith);
    } else {
        let before = tree::tally(parents, root, limit, (i - 1) as nat);
        assert(tree::depth(parents, root, i - 1) <= limit);
        lemma_tally_exact(parents, root, limit, d, (i - 1) as nat);
        tree::lemma_depth_bound(parents, root, i - 1);
        let dep = tree::depth(parents, root, i - 1);
        let at = dep as int;
        let unit = pow2((limit - dep) as nat);
        tree::lemma_space_update(before, limit, limit, at, before[at] + 1);
        assert((before[at] + 1 - before[at]) * unit == unit) by (nonlinear_arith);
        let s0 = tree::space(before, limit, limit);
        assert(e * (s0 + unit) == e * s0 + e * unit) by (nonlinear_arith);
        lemma_pow2_adds((d - limit) as nat, (limit - dep) as nat);
        assert((d - limit) as nat + (limit - dep) as nat == (d - dep) as nat);
        assert forall|l: nat| l <= limit implies #[trigger] tree::total(hist, l) == no_deeper(
            parents,
            root,
            i,
            l,
        ) by {
            tree::lemma_space_update(before, limit, l, at, before[at] + 1);
            assert(tree::total(before, l) == no_deeper(parents, root, (i - 1) as nat, l));
        }
    }
}

/// Leaves up to `i` that all lie deeper than `l` are not among those that do not.
proof fn lemma_few(parents: Seq<int>, root: int, m: nat, i: int, l: nat)
    requires
        -1 <= i < m,
        forall|j: int| 0 <= j <= i ==> #[trigger] tree::depth(parents, root, j) > l,
    ensures
        0 <= no_deeper(parents, root, m, l) <= m - 1 - i,
    decreases m,
{
    if m == i + 1 {
        if m > 0 {
            assert(tree::depth(parents, root, m - 1) > l);
            lemma_few(parents, root, (m - 1) as nat, i - 1, l);
        }
    } else {
        lemma_few(parents, root, (m - 1) as nat, i, l);
    }
}

/// Leaves from `i` on that lie no deeper than `l` are all counted.
proof fn lemma_many(parents: Seq<int>, root: int, m: nat, i: int, l: nat)
    requires
        0 <= i <= m,
        forall|j: int| i <= j < m ==> #[trigger] tree::depth(parents, root, j) <= l,
    ensures
        no_deeper(parents, root, m, l) >= m - i,
    decreases m,
{
    if m == i {
        lemma_few(parents, root, m, -1, l);
    } else {
        assert(tree::depth(parents, root, m - 1) <= l);
        lemma_many(parents, root, (m - 1) as nat, i, l);
    }
}

/// Where nothing is cut off, the lengths handed out are the depths of the tree.
proof fn lemma_lengths_are_depths(weights: Seq<int>, limit: nat, i: int)
    requires
        1 <= limit <= 15,
        2 <= weights.len() <= pow2(limit),
        0 <= i < weights.len(),
        ({
            let n = weights.len();
            within(forest(weights, (n - 1) as nat).parents, 2 * n - 2, n, limit)
        }),
    ensures
        ({
            let n = weights.len();
            let p = forest(weights, (n - 1) as nat).parents;
            tree::length_at(tree::fitted(weights, limit), n - 1 - i, 1) == tree::depth(
                p,
                2 * n - 2,
                i,
            )
        }),
{
    let n = weights.len();
    let root = 2 * n - 2;
    let p = forest(weights, (n - 1) as nat).parents;
    let d = (2 * n + 15) as nat;
    let e = pow2((d - limit) as nat);
    let hist = tree::tally(p, root, limit, n);
    tree::lemma_fitted(weights, limit);
    tree::lemma_leaf_shares(weights, d);
    lemma_tally_exact(p, root, limit, d, n);
    lemma_pow2_pos((d - limit) as nat);
    lemma_pow2_adds((d - limit) as nat, limit);
    let all = tree::space(hist, limit, limit);
    assert(all == pow2(limit)) by (nonlinear_arith)
        requires
            e * all == e * pow2(limit),
            e > 0,
    ;
    assert(tree::fitted(weights, limit) == hist);
    tree::lemma_depth_bound(p, root, i);
    let l = tree::depth(p, root, i);
    assert(l <= limit);
    let r = n - 1 - i;
    assert(tree::total(hist, limit) == n);
    assert forall|j: int| 0 <= j <= i implies #[trigger] tree::depth(p, root, j) > (l - 1) as nat by {
        lemma_depths_descend(weights, j, i);
    }
    assert forall|j: int| i <= j < n implies #[trigger] tree::depth(p, root, j) <= l by {
        lemma_depths_descend(weights, i, j);
    }
    lemma_few(p, root, n, i, (l - 1) as nat);
    lemma_many(p, root, n, i, l);
    assert(tree::total(hist, (l - 1) as nat) <= r);
    assert(tree::total(hist, l) > r);
    tree::lemma_length_at_unique(hist, limit, r, l);
}

// ---------------------------------------------------------------------------------------
// Symbols and their ranks
// ---------------------------------------------------------------------------------------

/// The bits that symbols take which occur with the given frequencies.
pub open spec fn coded_bits(freqs: Seq<u32>, lengths: Seq<u8>) -> int
    decreases freqs.len(),
{
    if freqs.len() == 0 {
        0
    } else {
        coded_bits(freqs.drop_last(), lengths.drop_last()) + freqs.last() * lengths.last()
    }
}

/// Whether the tree over the used symbols is no deeper than the ceiling.
pub open spec fn uncut(freqs: Seq<u32>, limit: nat) -> bool {
    let order = tree::ranked(freqs, freqs.len());
    let n = order.len();
    let p = forest(tree::leaf_weights(freqs, order), (n - 1) as nat).parents;
    forall|i: int| 0 <= i < n ==> #[trigger] tree::depth(p, 2 * n - 2, i) <= limit
}

/// The values of ranked symbols, by rank.
spec fn picked(order: Seq<int>, values: Seq<int>) -> Seq<int> {
    Seq::new(order.len(), |i: int| values[order[i]])
}

/// The values of ranked symbols together.
spec fn picked_sum(order: Seq<int>, values: Seq<int>) -> int {
    weight_sum(picked(order, values), 0, order.len() as int)
}

proof fn lemma_picked_push(order: Seq<int>, values: Seq<int>, x: int)
    ensures
        picked_sum(order.push(x), values) == picked_sum(order, values) + values[x],
{
    let n = order.len() as int;
    let more = picked(order.push(x), values);
    tree::lemma_weight_sum_end(more, 0, n);
    tree::lemma_weight_sum_same(picked(order, values), more, 0, n);
}

proof fn lemma_picked_insert(freqs: Seq<u32>, order: Seq<int>, values: Seq<int>, x: int)
    ensures
        picked_sum(tree::insert(freqs, order, x), values) == picked_sum(order, values) + values[x],
    decreases order.len(),
{
    if order.len() == 0 || freqs[order.last()] <= freqs[x] {
        lemma_picked_push(order, values, x);
    } else {
        let rest = order.drop_last();
        lemma_picked_insert(freqs, rest, values, x);
        lemma_picked_push(tree::insert(freqs, rest, x), values, order.last());
        assert(order =~= rest.push(order.last()));
        lemma_picked_push(rest, values, order.last());
    }
}

/// The values of the used ones of the first `i` symbols.
spec fn used_sum(freqs: Seq<u32>, values: Seq<int>, i: nat) -> int
    decreases i,
{
    if i == 0 {
        0
    } else {
        used_sum(freqs, values, (i - 1) as nat) + if freqs[i - 1] > 0 {
            values[i - 1]
        } else {
            0
        }
    }
}

/// Ranking changes the order of the used symbols and nothing else.
proof fn lemma_ranked_sum(freqs: Seq<u32>, values: Seq<int>, i: nat)
    ensures
        picked_sum(tree::ranked(freqs, i), values) == used_sum(freqs, values, i),
    decreases i,
{
    if i > 0 {
        lemma_ranked_sum(freqs, values, (i - 1) as nat);
        if freqs[i - 1] > 0 {
            lemma_picked_insert(freqs, tree::ranked(freqs, (i - 1) as nat), values, i - 1);
        }
    }
}

/// What each symbol contributes to the length of the coded data.
spec fn symbol_bits(freqs: Seq<u32>, lengths: Seq<u8>) -> Seq<int> {
    Seq::new(freqs.len(), |s: int| freqs[s] * lengths[s])
}

proof fn lemma_coded_bits(freqs: Seq<u32>, lengths: Seq<u8>, i: nat)
    requires
        i <= freqs.len(),
        lengths.len() == freqs.len(),
    ensures
        coded_bits(freqs.take(i as int), lengths.take(i as int)) == used_sum(
            freqs,
            symbol_bits(freqs, lengths),
            i,
        ),
    decreases i,
{
    if i > 0 {
        let (f, l) = (freqs.take(i as int), lengths.take(i as int));
        lemma_coded_bits(freqs, lengths, (i - 1) as nat);
        assert(f.drop_last() =~= freqs.take(i - 1));
        assert(l.drop_last() =~= lengths.take(i - 1));
        let n = lengths[i - 1] as int;
        assert(0 * n == 0) by (nonlinear_arith);
    }
}

/// The coded length as the roots of the forest before any merge see it.
proof fn lemma_cost_by_rank(freqs: Seq<u32>, lengths: Seq<u8>, by_rank: Seq<nat>)
    requires
        lengths.len() == freqs.len(),
        ({
            let order = tree::ranked(freqs, freqs.len());
            &&& by_rank.len() == order.len()
            &&& forall|i: int| 0 <= i < order.len() ==> #[trigger] by_rank[i] == lengths[order[i]]
        }),
    ensures
        ({
            let order = tree::ranked(freqs, freqs.len());
            let weights = tree::leaf_weights(freqs, order);
            root_cost(by_rank, forest(weights, 0), order.len() as int) == coded_bits(freqs, lengths)
        }),
{
    let order = tree::ranked(freqs, freqs.len());
    let weights = tree::leaf_weights(freqs, order);
    tree::lemma_ranked(freqs, freqs.len());
    let values = symbol_bits(freqs, lengths);
    assert(products(weights, by_rank) =~= picked(order, values));
    lemma_ranked_sum(freqs, values, freqs.len());
    lemma_coded_bits(freqs, lengths, freqs.len());
    assert(freqs.take(freqs.len() as int) =~= freqs);
    assert(lengths.take(lengths.len() as int) =~= lengths);
}

/// The code space that a symbol takes, in codewords of `l` bits.
spec fn symbol_space(length: u8, l: nat) -> int {
    if 1 <= length <= l {
        pow2((l - length) as nat) as int
    } else {
        0
    }
}

/// The code space that all symbols take.
spec fn space_sum(lengths: Seq<u8>, l: nat) -> int
    decreases lengths.len(),
{
    if lengths.len() == 0 {
        0
    } else {
        space_sum(lengths.drop_last(), l) + symbol_space(lengths.last(), l)
    }
}

proof fn lemma_space_step(lengths: Seq<u8>, l: nat)
    requires
        l >= 1,
    ensures
        space_sum(lengths, l) == 2 * space_sum(lengths, (l - 1) as nat) + code::count(
            lengths,
            l as int,
        ),
    decreases lengths.len(),
{
    if lengths.len() > 0 {
        let last = lengths.last();
        lemma_space_step(lengths.drop_last(), l);
        if 1 <= last < l {
            bits::lemma_pow2_step((l - 1 - last) as nat);
            assert((l - 1 - last) as nat + 1 == (l - last) as nat);
        } else if last == l {
            bits::lemma_pow2_small();
        }
    }
}

proof fn lemma_no_space(lengths: Seq<u8>)
    ensures
        space_sum(lengths, 0) == 0,
    decreases lengths.len(),
{
    if lengths.len() > 0 {
        lemma_no_space(lengths.drop_last());
    }
}

/// The space that a code takes is what its symbols take together.
proof fn lemma_space_used(lengths: Seq<u8>, l: nat)
    requires
        l >= 1,
    ensures
        space_sum(lengths, l) == code::used(lengths, l),
    decreases l,
{
    lemma_space_step(lengths, l);
    if l == 1 {
        lemma_no_space(lengths);
    } else {
        lemma_space_used(lengths, (l - 1) as nat);
    }
}

/// What each symbol takes.
spec fn symbol_spaces(lengths: Seq<u8>) -> Seq<int> {
    Seq::new(lengths.len(), |s: int| symbol_space(lengths[s], 15))
}

/// The used symbols take no more than all symbols.
proof fn lemma_used_space(freqs: Seq<u32>, lengths: Seq<u8>, i: nat)
    requires
        i <= lengths.len(),
    ensures
        used_sum(freqs, symbol_spaces(lengths), i) <= space_sum(lengths.take(i as int), 15),
    decreases i,
{
    if i > 0 {
        let l = lengths.take(i as int);
        lemma_used_space(freqs, lengths, (i - 1) as nat);
        assert(l.drop_last() =~= lengths.take(i - 1));
    }
}

/// A code that fits leaves room for the used symbols.
proof fn lemma_used_fit(freqs: Seq<u32>, other: Seq<u8>, theirs: Seq<nat>)
    requires
        other.len() == freqs.len(),
        code::fits(other),
        forall|s: int| 0 <= s < freqs.len() && freqs[s] > 0 ==> #[trigger] other[s] > 0,
        ({
            let order = tree::ranked(freqs, freqs.len());
            &&& theirs.len() == order.len()
            &&& forall|i: int| 0 <= i < order.len() ==> #[trigger] theirs[i] == other[order[i]]
        }),
    ensures
        ({
            let order = tree::ranked(freqs, freqs.len());
            fit(
                theirs,
                15,
                forest(tree::leaf_weights(freqs, order), 0),
                order.len() as int,
            )
        }),
{
    let order = tree::ranked(freqs, freqs.len());
    tree::lemma_ranked(freqs, freqs.len());
    let values = symbol_spaces(other);
    assert forall|i: int| 0 <= i < order.len() implies #[trigger] theirs[i] <= 15 && theirs[i]
        >= 1 by {
        assert(freqs[order[i]] > 0);
        assert(other[order[i]] > 0);
    }
    assert(spaces(theirs, 15) =~= picked(order, values));
    lemma_ranked_sum(freqs, values, freqs.len());
    lemma_used_space(freqs, other, freqs.len());
    assert(other.take(other.len() as int) =~= other);
    lemma_space_used(other, 15);
}

/// A single used symbol has a codeword of one bit.
proof fn lemma_single(
    freqs: Seq<u32>,
    ours: Seq<u8>,
    other: Seq<u8>,
    mine: Seq<nat>,
    theirs: Seq<nat>,
)
    requires
        2 <= freqs.len(),
        other.len() == freqs.len(),
        forall|s: int| 0 <= s < freqs.len() && freqs[s] > 0 ==> #[trigger] other[s] > 0,
        ({
            let order = tree::ranked(freqs, freqs.len());
            &&& order.len() < 2
            &&& ours == tree::padded(order, freqs.len())
            &&& mine.len() == order.len()
            &&& theirs.len() == order.len()
            &&& forall|i: int| 0 <= i < order.len() ==> #[trigger] mine[i] == ours[order[i]]
            &&& forall|i: int| 0 <= i < order.len() ==> #[trigger] theirs[i] == other[order[i]]
        }),
    ensures
        ({
            let order = tree::ranked(freqs, freqs.len());
            let f = forest(tree::leaf_weights(freqs, order), 0);
            root_cost(mine, f, order.len() as int) <= root_cost(theirs, f, order.len() as int)
        }),
{
    let order = tree::ranked(freqs, freqs.len());
    tree::lemma_ranked(freqs, freqs.len());
    let f = forest(tree::leaf_weights(freqs, order), 0);
    reveal_with_fuel(weight_sum, 2);
    if order.len() == 1 {
        assert(freqs[order[0]] > 0);
        assert(mine[0] == 1);
        assert(theirs[0] >= 1);
        let (w, l) = (f.weights[0], theirs[0] as int);
        assert(w * 1 <= w * l) by (nonlinear_arith)
            requires
                w >= 0,
                l >= 1,
        ;
        let x = products(f.weights, mine);
        let y = products(f.weights, theirs);
        assert(x[0] == w * 1);
        assert(y[0] == w * l);
    }
}

/// No code is shorter than the one fitted to the frequencies: where the ceiling cuts nothing
/// off, the symbols take no more bits than under any lengths that fit the code space and give
/// every used symbol a codeword.
pub proof fn law_lengths_are_optimal(freqs: Seq<u32>, limit: nat, other: Seq<u8>)
    requires
        2 <= freqs.len(),
        1 <= limit <= 15,
        tree::ranked(freqs, freqs.len()).len() <= pow2(limit),
        uncut(freqs, limit),
        other.len() == freqs.len(),
        code::fits(other),
        forall|s: int| 0 <= s < freqs.len() && freqs[s] > 0 ==> #[trigger] other[s] > 0,
    ensures
        coded_bits(freqs, tree::code_lengths(freqs, limit)) <= coded_bits(freqs, other),
{
    let order = tree::ranked(freqs, freqs.len());
    let ours = tree::code_lengths(freqs, limit);
    let n = order.len() as int;
    tree::lemma_ranked(freqs, freqs.len());
    tree::law_code_lengths(freqs, limit);
    let mine = Seq::new(order.len(), |i: int| ours[order[i]] as nat);
    let theirs = Seq::new(order.len(), |i: int| other[order[i]] as nat);
    lemma_cost_by_rank(freqs, ours, mine);
    lemma_cost_by_rank(freqs, other, theirs);
    let weights = tree::leaf_weights(freqs, order);
    if n < 2 {
        lemma_single(freqs, ours, other, mine, theirs);
    } else {
        assert forall|i: int, j: int| 0 <= i <= j < n implies #[trigger] weights[i]
            <= #[trigger] weights[j] by {
            assert(freqs[order[i]] <= freqs[order[j]]);
        }
        lemma_used_fit(freqs, other, theirs);
        lemma_lower_bound(weights, 0, theirs, 15);
        lemma_attained(weights, 0);
        tree::lemma_fitted(weights, limit);
        tree::lemma_assigned(order, tree::fitted(weights, limit), freqs.len(), limit, 0);
        assert forall|i: int| 0 <= i < n implies #[trigger] mine[i] == depths(weights, n as nat)[i] by {
            lemma_lengths_are_depths(weights, limit, i);
            assert(ours[order[i]] == tree::length_at(
                tree::fitted(weights, limit),
                n - 1 - i,
                1,
            ));
        }
        assert(mine =~= depths(weights, n as nat));
    }
}

} // verus!
