//! Choosing a filter for a scanline.

use vstd::prelude::*;
use vstd::arithmetic::div_mod::*;
use crate::encoder::FilterStrategy;
use crate::filter;
use crate::filter::{predict, Filter};

verus! {

/// How much better than the previous row's filter another filter must score to displace it,
/// as the part of its score that is taken off.
///
/// Consecutive rows filtered the same way stay similar to each other, and that similarity is
/// what the compressor turns into matches one scanline apart. A row that switches filters
/// resembles nothing before it, so a switch has to earn more than the small local gain the
/// residual sum can see. One eighth is enough to stop the choice flapping between filters
/// that score within noise of each other, without holding on to a filter that has genuinely
/// stopped suiting the image.
pub const STICKY_PART: u64 = 8;

/// How much better than the rest Paeth must score to be chosen, as a percentage of its own
/// residual sum.
///
/// The five filters do not cost the same to reverse. Paeth's predictor depends on three
/// neighbours at once and takes a dozen operations to evaluate, where `Up` is a packed add
/// and `Sub` a single carry; a decoder spends the bulk of its reconstruction time on
/// whatever share of the rows carry Paeth. A row that chooses it over `Up` because the
/// residuals came out one percent smaller has bought almost nothing and charged that cost
/// to every future reader of the file.
///
/// A tenth is enough to settle those marginal rows the other way while leaving Paeth
/// wherever it genuinely suits the image.
pub const PAETH_HANDICAP_PERCENT: u64 = 10;

/// One pixel in every `SAMPLE_STEP` is scored when choosing a filter.
///
/// Whole pixels are sampled rather than individual bytes so that every channel contributes,
/// which matters because the channels of an image rarely have the same statistics.
pub const SAMPLE_STEP: usize = 8;

/// No scanline is longer: the widest image has 2^32 - 1 pixels of eight bytes.
pub const MAX_ROW_BYTES: u64 = 0x8_0000_0000;

/// Distance of a residual byte from zero, treating it as a signed value.
pub open spec fn magnitude_of(residual: u8) -> nat {
    if residual < 128 {
        residual as nat
    } else {
        (256 - residual) as nat
    }
}

/// The residuals that a filter leaves at `from` to `to`, summed up.
pub open spec fn bytes_score(
    filter: Filter,
    bpp: nat,
    prev: Seq<u8>,
    row: Seq<u8>,
    from: int,
    to: int,
) -> nat
    decreases to - from,
{
    if from >= to {
        0
    } else {
        bytes_score(filter, bpp, prev, row, from, to - 1) + magnitude_of(
            filter::filtered_byte(filter, bpp, prev, row, to - 1),
        )
    }
}

/// The residuals of every pixel that lies a multiple of `stride` bytes behind `index`.
pub open spec fn pixels_score(
    filter: Filter,
    bpp: nat,
    prev: Seq<u8>,
    row: Seq<u8>,
    index: int,
    stride: nat,
) -> nat
    decreases row.len() - index,
{
    if index >= row.len() || stride == 0 {
        0
    } else if index + bpp <= row.len() {
        let here = bytes_score(filter, bpp, prev, row, index, index + bpp);
        if index + stride < row.len() {
            here + pixels_score(filter, bpp, prev, row, index + stride, stride)
        } else {
            here
        }
    } else {
        bytes_score(filter, bpp, prev, row, index, row.len() as int)
    }
}

/// The residuals that a filter leaves in the first pixel and in one of every `step` behind it.
pub open spec fn score(filter: Filter, bpp: nat, prev: Seq<u8>, row: Seq<u8>, step: nat) -> nat {
    let head = if bpp < row.len() {
        bpp as int
    } else {
        row.len() as int
    };
    bytes_score(filter, bpp, prev, row, 0, head) + pixels_score(
        filter,
        bpp,
        prev,
        row,
        bpp as int,
        bpp * step,
    )
}

/// The score of a filter with the handicap of Paeth added.
pub open spec fn charged(filter: Filter, bpp: nat, prev: Seq<u8>, row: Seq<u8>, step: nat) -> nat {
    let plain = score(filter, bpp, prev, row, step);
    if filter is Paeth {
        plain + plain * PAETH_HANDICAP_PERCENT as nat / 100
    } else {
        plain
    }
}

/// The best of the filter of the row before and the first `n` filters, and its score.
pub open spec fn best(
    bpp: nat,
    prev: Seq<u8>,
    row: Seq<u8>,
    step: nat,
    before: Filter,
    n: nat,
) -> (Filter, nat)
    decreases n,
{
    if n == 0 {
        let held = charged(before, bpp, prev, row, step);
        (before, (held - held / STICKY_PART as nat) as nat)
    } else {
        let (so_far, least) = best(bpp, prev, row, step, before, (n - 1) as nat);
        let next = Filter::ALL[n - 1];
        let value = charged(next, bpp, prev, row, step);
        if next != before && value < least {
            (next, value)
        } else {
            (so_far, least)
        }
    }
}

/// The filter that suits a row.
///
/// The one with the smallest residuals, except that the filter of the row before is favoured
/// by an eighth of its score and Paeth is charged a tenth more. Ties go to the filter of the
/// row before, and then to the lowest type byte.
#[verifier::opaque]
pub open spec fn chosen_filter(
    strategy: FilterStrategy,
    bpp: nat,
    prev: Seq<u8>,
    row: Seq<u8>,
    before: Filter,
) -> Filter {
    match strategy {
        FilterStrategy::Fixed(filter) => filter,
        FilterStrategy::Adaptive => best(bpp, prev, row, 1, before, 5).0,
        FilterStrategy::Sampled => best(bpp, prev, row, SAMPLE_STEP as nat, before, 5).0,
    }
}

proof fn lemma_bytes_score(
    filter: Filter,
    bpp: nat,
    prev: Seq<u8>,
    row: Seq<u8>,
    from: int,
    to: int,
)
    requires
        from <= to,
    ensures
        bytes_score(filter, bpp, prev, row, from, to) <= 128 * (to - from),
    decreases to - from,
{
    if from < to {
        lemma_bytes_score(filter, bpp, prev, row, from, to - 1);
    }
}

proof fn lemma_pixels_score(
    filter: Filter,
    bpp: nat,
    prev: Seq<u8>,
    row: Seq<u8>,
    index: int,
    stride: nat,
)
    requires
        stride >= bpp,
    ensures
        index <= row.len() ==> pixels_score(filter, bpp, prev, row, index, stride) <= 128 * (
        row.len() - index),
        index > row.len() ==> pixels_score(filter, bpp, prev, row, index, stride) == 0,
    decreases row.len() - index,
{
    if index < row.len() && stride > 0 {
        if index + bpp <= row.len() {
            lemma_bytes_score(filter, bpp, prev, row, index, index + bpp);
            if index + stride < row.len() {
                lemma_pixels_score(filter, bpp, prev, row, index + stride, stride);
            }
        } else {
            lemma_bytes_score(filter, bpp, prev, row, index, row.len() as int);
        }
    }
}

/// A score is at most 128 per byte of the row.
proof fn lemma_score(filter: Filter, bpp: nat, prev: Seq<u8>, row: Seq<u8>, step: nat)
    requires
        step >= 1,
    ensures
        score(filter, bpp, prev, row, step) <= 128 * row.len(),
{
    assert(bpp * step >= bpp) by (nonlinear_arith)
        requires
            step >= 1,
            bpp >= 0,
    ;
    let head = if bpp < row.len() {
        bpp as int
    } else {
        row.len() as int
    };
    lemma_bytes_score(filter, bpp, prev, row, 0, head);
    lemma_pixels_score(filter, bpp, prev, row, bpp as int, bpp * step);
}

/// Distance of a residual byte from zero, treating it as a signed value.
fn magnitude(residual: u8) -> (size: u64)
    ensures
        size == magnitude_of(residual),
        size <= 128,
{
    if residual < 128 {
        residual as u64
    } else {
        256 - residual as u64
    }
}

/// What `filter` leaves of the byte `i` of a row.
fn residual<const BPP: usize>(filter: Filter, previous: &[u8], row: &[u8], i: usize) -> (value: u8)
    requires
        BPP >= 1,
        previous@.len() == row@.len(),
        i < row@.len(),
    ensures
        value == filter::filtered_byte(filter, BPP as nat, previous@, row@, i as int),
{
    if i < BPP {
        row[i].wrapping_sub(predict(filter, 0, previous[i], 0))
    } else {
        row[i].wrapping_sub(predict(filter, row[i - BPP], previous[i], previous[i - BPP]))
    }
}

/// Sum of absolute residuals of the bytes `from..to` under `filter`, added to `total`.
fn add_scores<const BPP: usize>(
    filter: Filter,
    previous: &[u8],
    row: &[u8],
    from: usize,
    to: usize,
    total: u64,
) -> (sum: u64)
    requires
        BPP >= 1,
        previous@.len() == row@.len(),
        row@.len() <= MAX_ROW_BYTES,
        from <= to <= row@.len(),
        total <= 128 * from,
    ensures
        sum == total + bytes_score(filter, BPP as nat, previous@, row@, from as int, to as int),
        sum <= 128 * to,
{
    let mut sum: u64 = total;
    for i in from..to
        invariant
            BPP >= 1,
            previous@.len() == row@.len(),
            row@.len() <= MAX_ROW_BYTES,
            from <= i <= to <= row@.len(),
            sum <= 128 * i,
            sum == total + bytes_score(filter, BPP as nat, previous@, row@, from as int, i as int),
    {
        sum = sum + magnitude(residual::<BPP>(filter, previous, row, i));
    }
    sum
}

/// Sum of absolute residuals `filter` would produce over the sampled pixels.
fn residual_score<const BPP: usize>(filter: Filter, previous: &[u8], row: &[u8], step: usize) -> (
    total: u64)
    requires
        1 <= BPP <= 8,
        1 <= step,
        previous@.len() == row@.len(),
        row@.len() <= MAX_ROW_BYTES,
    ensures
        total == score(filter, BPP as nat, previous@, row@, step as nat),
        total <= 128 * row@.len(),
{
    let length: usize = row.len();
    let ghost whole = BPP as nat * step as nat;
    proof {
        let most = usize::MAX as int / BPP as int;
        lemma_fundamental_div_mod(usize::MAX as int, BPP as int);
        assert(whole >= BPP) by (nonlinear_arith)
            requires
                whole == BPP * step,
                step >= 1,
                BPP >= 1,
        ;
        assert(step <= most ==> whole <= BPP * most) by (nonlinear_arith)
            requires
                whole == BPP * step,
                BPP >= 1,
        ;
        assert(step > most ==> whole >= BPP * most + BPP) by (nonlinear_arith)
            requires
                whole == BPP * step,
                BPP >= 1,
        ;
    }
    // A stride beyond every row is as good as any other such stride.
    let stride: usize = if step > usize::MAX / BPP {
        usize::MAX
    } else {
        BPP * step
    };
    proof {
        lemma_score(filter, BPP as nat, previous@, row@, step as nat);
    }
    let ghost want = score(filter, BPP as nat, previous@, row@, step as nat);
    // The first pixel has no left neighbour, so it is scored on its own terms.
    if length <= BPP {
        return add_scores::<BPP>(filter, previous, row, 0, length, 0);
    }
    let mut total: u64 = add_scores::<BPP>(filter, previous, row, 0, BPP, 0);
    let mut index: usize = BPP;
    // Whole pixels.
    while length - index >= BPP
        invariant
            1 <= BPP <= 8,
            BPP <= stride,
            stride == whole || stride == usize::MAX && whole > usize::MAX,
            length == row@.len() == previous@.len(),
            length <= MAX_ROW_BYTES,
            index <= length,
            total <= 128 * index,
            want == score(filter, BPP as nat, previous@, row@, step as nat),
            want == total + pixels_score(
                filter,
                BPP as nat,
                previous@,
                row@,
                index as int,
                whole,
            ),
            index == length ==> want == total,
        ensures
            index <= length,
            total <= 128 * index,
            want == total + bytes_score(
                filter,
                BPP as nat,
                previous@,
                row@,
                index as int,
                length as int,
            ),
        decreases length - index,
    {
        total = add_scores::<BPP>(filter, previous, row, index, index + BPP, total);
        if length - index <= stride {
            return total;
        }
        index = index + stride;
    }
    // A row need not divide into whole pixels, and the remainder can only be the last of
    // them.
    add_scores::<BPP>(filter, previous, row, index, length, total)
}

/// The score of a filter with the handicap of Paeth added.
///
/// Charged after scoring rather than inside it: the handicap is about what the row will
/// cost to read back, which is a property of the filter and not of these residuals.
fn charged_score<const BPP: usize>(filter: Filter, previous: &[u8], row: &[u8], step: usize) -> (
    total: u64)
    requires
        1 <= BPP <= 8,
        1 <= step,
        previous@.len() == row@.len(),
        row@.len() <= MAX_ROW_BYTES,
    ensures
        total == charged(filter, BPP as nat, previous@, row@, step as nat),
{
    let plain: u64 = residual_score::<BPP>(filter, previous, row, step);
    if filter == Filter::Paeth {
        plain + plain * PAETH_HANDICAP_PERCENT / 100
    } else {
        plain
    }
}

/// Picks the filter whose residuals are smallest, scoring every `step`-th pixel.
///
/// Smaller residuals mean a byte distribution more tightly clustered around zero, which is
/// what the entropy coder downstream turns into fewer bits. The heuristic holds up well in
/// practice, with two caveats: the previous row's filter is favoured by [`STICKY_PART`], and
/// Paeth is held back by [`PAETH_HANDICAP_PERCENT`] to keep rows off the slowest filter to
/// reverse when it wins by a margin too small to be worth the decoder's time.
pub fn choose_filter<const BPP: usize>(
    previous: &[u8],
    row: &[u8],
    step: usize,
    previous_choice: Filter,
) -> (choice: Filter)
    requires
        1 <= BPP <= 8,
        1 <= step,
        previous@.len() == row@.len(),
        row@.len() <= MAX_ROW_BYTES,
    ensures
        choice == best(BPP as nat, previous@, row@, step as nat, previous_choice, 5).0,
{
    let held: u64 = charged_score::<BPP>(previous_choice, previous, row, step);
    let mut choice: Filter = previous_choice;
    let mut least: u64 = held - held / STICKY_PART;
    for n in 0..5usize
        invariant
            1 <= BPP <= 8,
            1 <= step,
            previous@.len() == row@.len(),
            row@.len() <= MAX_ROW_BYTES,
            best(BPP as nat, previous@, row@, step as nat, previous_choice, n as nat) == (
                choice,
                least as nat,
            ),
    {
        let filter: Filter = Filter::ALL[n];
        if filter != previous_choice {
            let value: u64 = charged_score::<BPP>(filter, previous, row, step);
            if value < least {
                least = value;
                choice = filter;
            }
        }
    }
    choice
}

/// The filter for one row.
pub fn select<const BPP: usize>(
    strategy: FilterStrategy,
    previous: &[u8],
    row: &[u8],
    previous_choice: Filter,
) -> (choice: Filter)
    requires
        1 <= BPP <= 8,
        previous@.len() == row@.len(),
        row@.len() <= MAX_ROW_BYTES,
    ensures
        choice == chosen_filter(strategy, BPP as nat, previous@, row@, previous_choice),
{
    reveal(chosen_filter);
    match strategy {
        FilterStrategy::Fixed(filter) => filter,
        FilterStrategy::Adaptive => choose_filter::<BPP>(previous, row, 1, previous_choice),
        FilterStrategy::Sampled => choose_filter::<BPP>(
            previous,
            row,
            SAMPLE_STEP,
            previous_choice,
        ),
    }
}

} // verus!
