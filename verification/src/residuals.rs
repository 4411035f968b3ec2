//! What the filters do to a row, byte by byte, and which of them a row is given.

use vstd::prelude::*;
use vstd::arithmetic::div_mod::*;
use vstd::arithmetic::mul::*;
use crate::common;
use crate::common::InfoView;
use crate::encoder::FilterStrategy;
use crate::filter;
use crate::filter::Filter;
use crate::interlace;
use crate::selection;
use crate::writing;

verus! {

// ---------------------------------------------------------------------------------------
// Filters
// ---------------------------------------------------------------------------------------

/// The neighbour of byte `i` a pixel to the left, or zero in the first pixel.
pub open spec fn left_of(row: Seq<u8>, i: int, pixel: int) -> int {
    if i >= pixel {
        row[i - pixel] as int
    } else {
        0
    }
}

/// How far apart two numbers are.
pub open spec fn apart(a: int, b: int) -> int {
    if a >= b {
        a - b
    } else {
        b - a
    }
}

/// Whether `value` is the nearest of three neighbours to left plus above less upper left. Of
/// equally near ones the left one goes first, and the one above second.
pub open spec fn nearest(value: int, left: int, above: int, upper_left: int) -> bool {
    let goal = left + above - upper_left;
    &&& value == left || value == above || value == upper_left
    &&& apart(value, goal) <= apart(left, goal)
    &&& apart(value, goal) <= apart(above, goal)
    &&& apart(value, goal) <= apart(upper_left, goal)
    &&& apart(left, goal) == apart(value, goal) ==> value == left
    &&& apart(left, goal) > apart(value, goal) && apart(above, goal) == apart(value, goal) ==> value
        == above
}

/// Whether `guess` is what a filter expects of a byte, given the bytes to the left, above, and
/// above that.
pub open spec fn expects(filter: Filter, guess: int, left: int, above: int, upper_left: int) -> bool {
    match filter {
        Filter::Raw => guess == 0,
        Filter::Sub => guess == left,
        Filter::Up => guess == above,
        Filter::Average => 2 * guess <= left + above < 2 * guess + 2,
        Filter::Paeth => nearest(guess, left, above, upper_left),
    }
}

proof fn lemma_expects(filter: Filter, left: u8, above: u8, upper_left: u8)
    ensures
        expects(
            filter,
            filter::predicted(filter, left, above, upper_left),
            left as int,
            above as int,
            upper_left as int,
        ),
        0 <= filter::predicted(filter, left, above, upper_left) < 256,
{
}

/// A filtered byte and what the filter expects of the byte add up to the byte, modulo 256.
pub proof fn law_filtered_byte(
    filter: Filter,
    pixel: nat,
    prev: Seq<u8>,
    row: Seq<u8>,
    i: int,
    guess: int,
)
    requires
        pixel >= 1,
        prev.len() == row.len(),
        0 <= i < row.len(),
        expects(
            filter,
            guess,
            left_of(row, i, pixel as int),
            prev[i] as int,
            left_of(prev, i, pixel as int),
        ),
    ensures
        filter::filtered(filter, pixel, prev, row).len() == row.len(),
        (filter::filtered(filter, pixel, prev, row)[i] + guess) % 256 == row[i],
{
    let left = filter::before(row, i, pixel);
    let corner = filter::before(prev, i, pixel);
    lemma_expects(filter, left, prev[i], corner);
    let v = filter::predicted(filter, left, prev[i], corner);
    lemma_one_guess(filter, guess, v, left as int, prev[i] as int, corner as int);
    lemma_wrap(row[i] as int, v);
}

proof fn lemma_one_guess(filter: Filter, a: int, b: int, left: int, above: int, upper_left: int)
    requires
        expects(filter, a, left, above, upper_left),
        expects(filter, b, left, above, upper_left),
    ensures
        a == b,
{
}

proof fn lemma_wrap(x: int, v: int)
    requires
        0 <= x < 256,
        0 <= v < 256,
    ensures
        ((x - v) % 256 + v) % 256 == x,
        0 <= (x - v) % 256 < 256,
{
    if x >= v {
        assert((x - v) % 256 == x - v);
    } else {
        assert((x - v) % 256 == x - v + 256);
    }
}

proof fn lemma_restored_at(
    filter: Filter,
    pixel: nat,
    prev: Seq<u8>,
    raw: Seq<u8>,
    n: nat,
    i: int,
)
    requires
        pixel >= 1,
        prev.len() == raw.len(),
        raw.len() % pixel == 0,
        0 <= i < n <= raw.len(),
    ensures
        ({
            let row = filter::restored(filter, pixel, prev, raw, n);
            &&& row.len() == n
            &&& row[i] == ((raw[i] + filter::predicted(
                filter,
                filter::before(row, i, pixel),
                prev[i],
                filter::before(prev, i, pixel),
            )) % 256) as u8
        }),
    decreases n,
{
    let m = (n - 1) as nat;
    filter::lemma_restored_len(filter, pixel, prev, raw, m);
    filter::lemma_restored_len(filter, pixel, prev, raw, n);
    if i < m {
        lemma_restored_at(filter, pixel, prev, raw, m, i);
    } else {
        reveal(filter::ragged);
        assert(!filter::ragged(raw.len() as int, pixel, i));
    }
}

/// A restored byte is the filtered byte and what the filter expects of it, modulo 256, where
/// the neighbours to the left are restored ones.
pub proof fn law_restored_byte(
    filter: Filter,
    pixel: nat,
    prev: Seq<u8>,
    raw: Seq<u8>,
    i: int,
    guess: int,
)
    requires
        pixel >= 1,
        prev.len() == raw.len(),
        raw.len() % pixel == 0,
        0 <= i < raw.len(),
        expects(
            filter,
            guess,
            left_of(filter::unfiltered(filter, pixel, prev, raw), i, pixel as int),
            prev[i] as int,
            left_of(prev, i, pixel as int),
        ),
    ensures
        filter::unfiltered(filter, pixel, prev, raw).len() == raw.len(),
        filter::unfiltered(filter, pixel, prev, raw)[i] == (raw[i] + guess) % 256,
{
    let row = filter::unfiltered(filter, pixel, prev, raw);
    lemma_restored_at(filter, pixel, prev, raw, raw.len(), i);
    let left = filter::before(row, i, pixel);
    let corner = filter::before(prev, i, pixel);
    lemma_expects(filter, left, prev[i], corner);
    let v = filter::predicted(filter, left, prev[i], corner);
    lemma_one_guess(filter, guess, v, left as int, prev[i] as int, corner as int);
}

/// In a row that does not end with a whole pixel, the bytes behind the last whole one are as
/// they came, unless the filter looks straight up.
pub proof fn law_restored_tail(filter: Filter, pixel: nat, prev: Seq<u8>, raw: Seq<u8>, i: int)
    requires
        pixel >= 1,
        prev.len() == raw.len(),
        0 <= i < raw.len(),
        i >= pixel * (raw.len() as int / pixel as int),
    ensures
        filter::unfiltered(filter, pixel, prev, raw)[i] == (if filter is Up {
            (raw[i] + prev[i]) % 256
        } else {
            raw[i] as int
        }),
{
    lemma_fundamental_div_mod(raw.len() as int, pixel as int);
    lemma_tail_at(filter, pixel, prev, raw, raw.len(), i);
}

proof fn lemma_tail_at(filter: Filter, pixel: nat, prev: Seq<u8>, raw: Seq<u8>, n: nat, i: int)
    requires
        pixel >= 1,
        prev.len() == raw.len(),
        0 <= i < n <= raw.len(),
        i >= raw.len() - raw.len() % pixel,
    ensures
        filter::restored(filter, pixel, prev, raw, n)[i] == (if filter is Up {
            (raw[i] + prev[i]) % 256
        } else {
            raw[i] as int
        }),
    decreases n,
{
    let m = (n - 1) as nat;
    reveal(filter::ragged);
    filter::lemma_restored_len(filter, pixel, prev, raw, m);
    if i < m {
        lemma_tail_at(filter, pixel, prev, raw, m, i);
    }
}

/// Filtering undoes the reversal of a filter.
pub proof fn law_unfilter_round_trip(filter: Filter, pixel: nat, prev: Seq<u8>, raw: Seq<u8>)
    requires
        pixel >= 1,
        prev.len() == raw.len(),
        raw.len() % pixel == 0,
    ensures
        filter::filtered(filter, pixel, prev, filter::unfiltered(filter, pixel, prev, raw)) == raw,
{
    let row = filter::unfiltered(filter, pixel, prev, raw);
    let again = filter::filtered(filter, pixel, prev, row);
    filter::lemma_restored_len(filter, pixel, prev, raw, raw.len());
    assert forall|i: int| 0 <= i < raw.len() implies again[i] == raw[i] by {
        lemma_restored_at(filter, pixel, prev, raw, raw.len(), i);
        let left = filter::before(row, i, pixel);
        let corner = filter::before(prev, i, pixel);
        lemma_expects(filter, left, prev[i], corner);
        let v = filter::predicted(filter, left, prev[i], corner);
        let sum = raw[i] + v;
        if sum < 256 {
            assert(sum % 256 == sum);
        } else {
            assert(sum % 256 == sum - 256);
            assert((sum - 256 - v) % 256 == raw[i]);
        }
    }
    assert(again =~= raw);
}

/// The filters are numbered from zero to four, and no other number is one.
pub proof fn law_filter_numbers(byte: u8)
    ensures
        byte <= 4 <==> filter::filter_of(byte) is Some,
        filter::filter_of(byte) matches Some(named) ==> filter::filter_byte(named) == byte,
        filter::filter_byte(Filter::Raw) == 0,
        filter::filter_byte(Filter::Sub) == 1,
        filter::filter_byte(Filter::Up) == 2,
        filter::filter_byte(Filter::Average) == 3,
        filter::filter_byte(Filter::Paeth) == 4,
{
}

// ---------------------------------------------------------------------------------------
// Choices
// ---------------------------------------------------------------------------------------

/// How far a byte is from zero as a signed number.
pub open spec fn size(byte: u8) -> nat {
    if byte <= 256 - byte {
        byte as nat
    } else {
        (256 - byte) as nat
    }
}

/// Whether byte `i` of a row is looked at: those of the first pixel, of the second, and of
/// every `step`-th behind the second.
pub open spec fn looked_at(i: int, pixel: int, step: int) -> bool {
    i / pixel == 0 || (i / pixel - 1) % step == 0
}

/// The sizes of the bytes at `from` to `to` that are looked at, summed up.
pub open spec fn weight(bytes: Seq<u8>, pixel: int, step: int, from: int, to: int) -> nat
    decreases to - from,
{
    if from >= to {
        0
    } else {
        weight(bytes, pixel, step, from, to - 1) + if looked_at(to - 1, pixel, step) {
            size(bytes[to - 1])
        } else {
            0
        }
    }
}

proof fn lemma_weight_split(bytes: Seq<u8>, pixel: int, step: int, from: int, mid: int, to: int)
    requires
        from <= mid <= to,
    ensures
        weight(bytes, pixel, step, from, to) == weight(bytes, pixel, step, from, mid) + weight(
            bytes,
            pixel,
            step,
            mid,
            to,
        ),
    decreases to - mid,
{
    if mid < to {
        lemma_weight_split(bytes, pixel, step, from, mid, to - 1);
    }
}

proof fn lemma_weight_none(bytes: Seq<u8>, pixel: int, step: int, from: int, to: int)
    requires
        forall|i: int| from <= i < to ==> !(#[trigger] looked_at(i, pixel, step)),
    ensures
        weight(bytes, pixel, step, from, to) == 0,
    decreases to - from,
{
    if from < to {
        lemma_weight_none(bytes, pixel, step, from, to - 1);
    }
}

proof fn lemma_weight_all(
    filter: Filter,
    pixel: nat,
    prev: Seq<u8>,
    row: Seq<u8>,
    step: int,
    from: int,
    to: int,
)
    requires
        0 <= from,
        to <= row.len(),
        forall|i: int| from <= i < to ==> #[trigger] looked_at(i, pixel as int, step),
    ensures
        weight(filter::filtered(filter, pixel, prev, row), pixel as int, step, from, to)
            == selection::bytes_score(filter, pixel, prev, row, from, to),
    decreases to - from,
{
    if from < to {
        lemma_weight_all(filter, pixel, prev, row, step, from, to - 1);
        assert(looked_at(to - 1, pixel as int, step));
    }
}

/// Which bytes are looked at around a pixel that is.
proof fn lemma_looked_at(pixel: int, step: int, m: int, i: int)
    requires
        pixel >= 1,
        step >= 1,
        m >= 0,
        pixel * (1 + step * m) <= i < pixel * (1 + step * m) + pixel * step,
    ensures
        looked_at(i, pixel, step) <==> i < pixel * (1 + step * m) + pixel,
{
    let base = 1 + step * m;
    let d = i - pixel * base;
    let q = d / pixel;
    lemma_fundamental_div_mod(d, pixel);
    assert(i == (base + q) * pixel + d % pixel) by (nonlinear_arith)
        requires
            d == pixel * q + d % pixel,
            i == pixel * base + d,
    ;
    lemma_mod_bound(d, pixel);
    lemma_div_pos_is_pos(d, pixel);
    lemma_fundamental_div_mod_converse(i, pixel, base + q, d % pixel);
    assert(i / pixel == base + q);
    assert(q < step) by {
        lemma_multiply_divide_lt(d, pixel, step);
        lemma_mul_is_commutative(step, pixel);
    }
    assert(base + q - 1 == step * m + q);
    lemma_mod_multiples_vanish(m, q, step);
    lemma_small_mod(q as nat, step as nat);
    assert(q == 0 <==> d < pixel) by (nonlinear_arith)
        requires
            d == pixel * q + d % pixel,
            0 <= d % pixel < pixel,
            q >= 0,
            pixel >= 1,
    ;
    assert(step * m >= 0) by (nonlinear_arith)
        requires
            step >= 1,
            m >= 0,
    ;
}

proof fn lemma_pixels_weight(
    filter: Filter,
    pixel: nat,
    prev: Seq<u8>,
    row: Seq<u8>,
    step: nat,
    m: int,
)
    requires
        pixel >= 1,
        step >= 1,
        m >= 0,
    ensures
        selection::pixels_score(
            filter,
            pixel,
            prev,
            row,
            pixel * (1 + step * m),
            pixel * step,
        ) == weight(
            filter::filtered(filter, pixel, prev, row),
            pixel as int,
            step as int,
            pixel * (1 + step * m),
            row.len() as int,
        ),
    decreases row.len() - pixel * (1 + step * m),
{
    let index = pixel * (1 + step * m);
    let stride = pixel * step;
    let len = row.len() as int;
    let out = filter::filtered(filter, pixel, prev, row);
    let p = pixel as int;
    let s = step as int;
    assert(index >= 1 && stride >= pixel) by (nonlinear_arith)
        requires
            index == pixel * (1 + step * m),
            stride == pixel * step,
            pixel >= 1,
            step >= 1,
            m >= 0,
    ;
    assert(pixel * (1 + step * (m + 1)) == index + stride) by (nonlinear_arith)
        requires
            index == pixel * (1 + step * m),
            stride == pixel * step,
    ;
    if index < len {
        assert forall|i: int| index <= i < index + stride implies (#[trigger] looked_at(i, p, s)
            <==> i < index + pixel) by {
            lemma_looked_at(p, s, m, i);
        }
        if index + pixel <= len {
            lemma_weight_all(filter, pixel, prev, row, s, index, index + pixel);
            if index + stride < len {
                lemma_pixels_weight(filter, pixel, prev, row, step, m + 1);
                lemma_weight_none(out, p, s, index + pixel, index + stride);
                lemma_weight_split(out, p, s, index, index + pixel, len);
                lemma_weight_split(out, p, s, index + pixel, index + stride, len);
            } else {
                lemma_weight_none(out, p, s, index + pixel, len);
                lemma_weight_split(out, p, s, index, index + pixel, len);
            }
        } else {
            lemma_weight_all(filter, pixel, prev, row, s, index, len);
        }
    }
}

/// The score of a filter is the weight of what it leaves.
proof fn lemma_score_is_weight(
    filter: Filter,
    pixel: nat,
    prev: Seq<u8>,
    row: Seq<u8>,
    step: nat,
)
    requires
        pixel >= 1,
        step >= 1,
    ensures
        selection::score(filter, pixel, prev, row, step) == weight(
            filter::filtered(filter, pixel, prev, row),
            pixel as int,
            step as int,
            0,
            row.len() as int,
        ),
{
    let len = row.len() as int;
    let out = filter::filtered(filter, pixel, prev, row);
    let head = if pixel < row.len() {
        pixel as int
    } else {
        len
    };
    assert forall|i: int| 0 <= i < head implies #[trigger] looked_at(
        i,
        pixel as int,
        step as int,
    ) by {
        lemma_basic_div(i, pixel as int);
    }
    lemma_weight_all(filter, pixel, prev, row, step as int, 0, head);
    assert(pixel * (1 + step * 0) == pixel) by (nonlinear_arith);
    lemma_pixels_weight(filter, pixel, prev, row, step, 0);
    lemma_weight_split(out, pixel as int, step as int, 0, head, len);
}

/// What a filter costs a row: the weight of what it leaves, and for Paeth a tenth more.
#[verifier::opaque]
pub open spec fn cost(filter: Filter, pixel: nat, prev: Seq<u8>, row: Seq<u8>, step: int) -> nat {
    let left = weight(
        filter::filtered(filter, pixel, prev, row),
        pixel as int,
        step,
        0,
        row.len() as int,
    );
    if filter is Paeth {
        left + left * 10 / 100
    } else {
        left
    }
}

/// What keeping a filter costs: an eighth less than choosing it.
pub open spec fn kept_cost(filter: Filter, pixel: nat, prev: Seq<u8>, row: Seq<u8>, step: int) -> int {
    let full = cost(filter, pixel, prev, row, step) as int;
    full - full / 8
}

/// Whether a filter is the right one for a row below one with the filter `before`: that
/// filter, unless another costs less than keeping it, and then the cheapest other one, of
/// equally cheap ones the first.
pub open spec fn right_choice(
    choice: Filter,
    before: Filter,
    pixel: nat,
    prev: Seq<u8>,
    row: Seq<u8>,
    step: int,
) -> bool {
    if choice == before {
        forall|other: Filter|
            other != before ==> kept_cost(before, pixel, prev, row, step) <= #[trigger] cost(
                other,
                pixel,
                prev,
                row,
                step,
            )
    } else {
        &&& cost(choice, pixel, prev, row, step) < kept_cost(before, pixel, prev, row, step)
        &&& forall|other: Filter|
            other != before ==> cost(choice, pixel, prev, row, step) <= #[trigger] cost(
                other,
                pixel,
                prev,
                row,
                step,
            )
        &&& forall|other: Filter|
            other != before && filter::filter_byte(other) < filter::filter_byte(choice) ==> cost(
                choice,
                pixel,
                prev,
                row,
                step,
            ) < #[trigger] cost(other, pixel, prev, row, step)
    }
}

/// What the search has found among the first `n` filters.
spec fn best_so_far(
    bpp: nat,
    prev: Seq<u8>,
    row: Seq<u8>,
    step: nat,
    before: Filter,
    n: nat,
) -> bool {
    let (choice, least) = selection::best(bpp, prev, row, step, before, n);
    let held = kept_cost(before, bpp, prev, row, step as int);
    &&& least == (if choice == before {
        held
    } else {
        cost(choice, bpp, prev, row, step as int) as int
    })
    &&& choice != before ==> least < held && filter::filter_byte(choice) < n
    &&& forall|other: Filter|
        other != before && filter::filter_byte(other) < n ==> least <= #[trigger] cost(
            other,
            bpp,
            prev,
            row,
            step as int,
        )
    &&& choice != before ==> forall|other: Filter|
        other != before && filter::filter_byte(other) < filter::filter_byte(choice) ==> least
            < #[trigger] cost(other, bpp, prev, row, step as int)
}

proof fn lemma_charged(filter: Filter, bpp: nat, prev: Seq<u8>, row: Seq<u8>, step: nat)
    requires
        bpp >= 1,
        step >= 1,
    ensures
        selection::charged(filter, bpp, prev, row, step) == cost(
            filter,
            bpp,
            prev,
            row,
            step as int,
        ),
{
    reveal(cost);
    lemma_score_is_weight(filter, bpp, prev, row, step);
}

/// One more filter of the search.
proof fn lemma_best_next(bpp: nat, prev: Seq<u8>, row: Seq<u8>, step: nat, before: Filter, m: nat)
    requires
        m < 5,
        best_so_far(bpp, prev, row, step, before, m),
        selection::charged(Filter::ALL[m as int], bpp, prev, row, step) == cost(
            Filter::ALL[m as int],
            bpp,
            prev,
            row,
            step as int,
        ),
    ensures
        best_so_far(bpp, prev, row, step, before, m + 1),
{
    let next = Filter::ALL[m as int];
    assert(filter::filter_byte(next) == m);
    assert forall|other: Filter| filter::filter_byte(other) == m implies other == next by {}
    let (so_far, least) = selection::best(bpp, prev, row, step, before, m);
    let (choice, lowest) = selection::best(bpp, prev, row, step, before, m + 1);
    assert forall|other: Filter| other != before && filter::filter_byte(other) < m + 1 implies lowest
        <= #[trigger] cost(other, bpp, prev, row, step as int) by {
        if filter::filter_byte(other) < m {
            assert(least <= cost(other, bpp, prev, row, step as int));
        } else {
            assert(other == next);
        }
    }
}

proof fn lemma_best(bpp: nat, prev: Seq<u8>, row: Seq<u8>, step: nat, before: Filter, n: nat)
    requires
        bpp >= 1,
        step >= 1,
        n <= 5,
    ensures
        best_so_far(bpp, prev, row, step, before, n),
    decreases n,
{
    lemma_charged(before, bpp, prev, row, step);
    if n > 0 {
        let m = (n - 1) as nat;
        lemma_best(bpp, prev, row, step, before, m);
        lemma_charged(Filter::ALL[m as int], bpp, prev, row, step);
        lemma_best_next(bpp, prev, row, step, before, m);
    }
}

/// The search over all bytes, and the one over a sample, both end with the right choice. A
/// filter that was fixed is used whatever it costs.
pub proof fn law_filter_choice(
    strategy: FilterStrategy,
    pixel: nat,
    prev: Seq<u8>,
    row: Seq<u8>,
    before: Filter,
)
    requires
        pixel >= 1,
    ensures
        match strategy {
            FilterStrategy::Fixed(filter) => selection::chosen_filter(
                strategy,
                pixel,
                prev,
                row,
                before,
            ) == filter,
            FilterStrategy::Adaptive => right_choice(
                selection::chosen_filter(strategy, pixel, prev, row, before),
                before,
                pixel,
                prev,
                row,
                1,
            ),
            FilterStrategy::Sampled => right_choice(
                selection::chosen_filter(strategy, pixel, prev, row, before),
                before,
                pixel,
                prev,
                row,
                8,
            ),
        },
{
    reveal(selection::chosen_filter);
    lemma_best(pixel, prev, row, 1, before, 5);
    lemma_best(pixel, prev, row, 8, before, 5);
}

/// Every row of a written image stands behind the number of its filter, with that filter
/// applied: the one that was fixed, or the right choice below the filter of the row above it.
/// Above the first row are zeros, and no filter.
pub proof fn law_row_choice(info: InfoView, data: Seq<u8>, strategy: FilterStrategy, y: int)
    requires
        info.checked() is Ok,
        data.len() == info.output_size(),
        0 <= y < info.height,
    ensures
        ({
            let bytes = info.row_bytes();
            let pixel = info.stride() as nat;
            let row = data.subrange(y * bytes, y * bytes + bytes);
            let above = if y == 0 {
                Seq::new(bytes as nat, |i: int| 0u8)
            } else {
                data.subrange(y * bytes - bytes, y * bytes)
            };
            let choice = writing::row_filter(info, data, strategy, y);
            let before = if y == 0 {
                Filter::Raw
            } else {
                writing::row_filter(info, data, strategy, y - 1)
            };
            &&& writing::record(info, data, strategy, y) == seq![filter::filter_byte(choice)]
                + filter::filtered(choice, pixel, above, row)
            &&& match strategy {
                FilterStrategy::Fixed(filter) => choice == filter,
                FilterStrategy::Adaptive => right_choice(choice, before, pixel, above, row, 1),
                FilterStrategy::Sampled => right_choice(choice, before, pixel, above, row, 8),
            }
        }),
{
    let bytes = info.row_bytes();
    common::lemma_sizes(info);
    common::lemma_bits(info);
    interlace::lemma_row_place(y, info.height as int, bytes);
    let row = data.subrange(y * bytes, y * bytes + bytes);
    let above = if y == 0 {
        Seq::new(bytes as nat, |i: int| 0u8)
    } else {
        data.subrange(y * bytes - bytes, y * bytes)
    };
    assert(writing::image_row(info, data, y) =~= row);
    if y > 0 {
        interlace::lemma_row_place(y - 1, info.height as int, bytes);
    }
    assert(writing::image_row_above(info, data, y) =~= above);
    law_filter_choice(
        strategy,
        info.stride() as nat,
        above,
        row,
        if y == 0 {
            Filter::Raw
        } else {
            writing::row_filter(info, data, strategy, y - 1)
        },
    );
}

} // verus!
