//! Putting the seven passes of an interlaced image together.

use vstd::prelude::*;
use vstd::arithmetic::div_mod::*;
use vstd::arithmetic::mul::*;
use crate::common;
use crate::common::{
    adam7_pass_size, row_bytes_for, zeroed_vec, Info, InfoView, ADAM7_PASSES,
};
use crate::error::Error;
use crate::file;
use crate::filter;
use crate::filter::unfilter_image;

verus! {

/// How many pixels of `bits` bits fit `bytes` bytes.
pub open spec fn cells(bytes: int, bits: int) -> int {
    if bits < 8 {
        bytes * (8int / bits)
    } else {
        bytes / (bits / 8)
    }
}

/// A pixel takes a few bits that divide a byte, or whole bytes.
pub open spec fn pixel_bits(bits: int) -> bool {
    bits == 1 || bits == 2 || bits == 4 || (8 <= bits <= 64 && bits % 8 == 0)
}

pub open spec fn packed(bits: u8) -> bool {
    bits == 1 || bits == 2 || bits == 4
}

/// Replacing a sample leaves the others of its byte alone.
proof fn lemma_slots(byte: u8, bits: u8, at: u8, other: u8, value: u8)
    requires
        packed(bits),
        at % bits == 0,
        at < 8,
        other % bits == 0,
        other < 8,
        value < (1u8 << bits),
    ensures
        file::slot(file::with_slot(byte, bits, at, value), bits, other) == if at == other {
            value
        } else {
            file::slot(byte, bits, other)
        },
{
    assert((((byte & !((((1u8 << bits) - 1) as u8) << ((8 - bits - at) as u8))) | (value << ((8
        - bits - at) as u8))) >> ((8 - bits - other) as u8)) & (((1u8 << bits) - 1) as u8) == if at
        == other {
        value
    } else {
        (byte >> ((8 - bits - other) as u8)) & (((1u8 << bits) - 1) as u8)
    }) by (bit_vector)
        requires
            bits == 1 || bits == 2 || bits == 4,
            at % bits == 0,
            at < 8,
            other % bits == 0,
            other < 8,
            value < (1u8 << bits),
    ;
}

/// A sample is no larger than its bits allow, and zero in a zero byte.
pub proof fn lemma_slot_range(byte: u8, bits: u8, at: u8)
    requires
        packed(bits),
        at % bits == 0,
        at < 8,
    ensures
        file::slot(byte, bits, at) < (1u8 << bits),
        file::slot(0, bits, at) == 0,
        (1u8 << bits) == (if bits == 1 {
            2u8
        } else if bits == 2 {
            4u8
        } else {
            16u8
        }),
{
    assert(((byte >> ((8 - bits - at) as u8)) & (((1u8 << bits) - 1) as u8)) < (1u8 << bits) && ((
    0u8 >> ((8 - bits - at) as u8)) & (((1u8 << bits) - 1) as u8)) == 0 && (1u8 << bits) == (if bits
        == 1 {
        2u8
    } else if bits == 2 {
        4u8
    } else {
        16u8
    })) by (bit_vector)
        requires
            bits == 1 || bits == 2 || bits == 4,
            at % bits == 0,
            at < 8,
    ;
}

/// Bytes with the same samples are the same.
proof fn lemma_same_slots(a: u8, b: u8, bits: u8)
    requires
        packed(bits),
        forall|at: u8|
            at < 8 && at % bits == 0 ==> #[trigger] file::slot(a, bits, at) == file::slot(
                b,
                bits,
                at,
            ),
    ensures
        a == b,
{
    if bits == 1 {
        assert(file::slot(a, 1, 0) == file::slot(b, 1, 0));
        assert(file::slot(a, 1, 1) == file::slot(b, 1, 1));
        assert(file::slot(a, 1, 2) == file::slot(b, 1, 2));
        assert(file::slot(a, 1, 3) == file::slot(b, 1, 3));
        assert(file::slot(a, 1, 4) == file::slot(b, 1, 4));
        assert(file::slot(a, 1, 5) == file::slot(b, 1, 5));
        assert(file::slot(a, 1, 6) == file::slot(b, 1, 6));
        assert(file::slot(a, 1, 7) == file::slot(b, 1, 7));
        assert(a == b) by (bit_vector)
            requires
                file::slot(a, 1, 0) == file::slot(b, 1, 0),
                file::slot(a, 1, 1) == file::slot(b, 1, 1),
                file::slot(a, 1, 2) == file::slot(b, 1, 2),
                file::slot(a, 1, 3) == file::slot(b, 1, 3),
                file::slot(a, 1, 4) == file::slot(b, 1, 4),
                file::slot(a, 1, 5) == file::slot(b, 1, 5),
                file::slot(a, 1, 6) == file::slot(b, 1, 6),
                file::slot(a, 1, 7) == file::slot(b, 1, 7),
        ;
    } else if bits == 2 {
        assert(file::slot(a, 2, 0) == file::slot(b, 2, 0));
        assert(file::slot(a, 2, 2) == file::slot(b, 2, 2));
        assert(file::slot(a, 2, 4) == file::slot(b, 2, 4));
        assert(file::slot(a, 2, 6) == file::slot(b, 2, 6));
        assert(a == b) by (bit_vector)
            requires
                file::slot(a, 2, 0) == file::slot(b, 2, 0),
                file::slot(a, 2, 2) == file::slot(b, 2, 2),
                file::slot(a, 2, 4) == file::slot(b, 2, 4),
                file::slot(a, 2, 6) == file::slot(b, 2, 6),
        ;
    } else {
        assert(file::slot(a, 4, 0) == file::slot(b, 4, 0));
        assert(file::slot(a, 4, 4) == file::slot(b, 4, 4));
        assert(a == b) by (bit_vector)
            requires
                file::slot(a, 4, 0) == file::slot(b, 4, 0),
                file::slot(a, 4, 4) == file::slot(b, 4, 4),
        ;
    }
}

/// Writes one pixel over another.
fn put_pixel(target: &mut [u8], to: usize, source: &[u8], from: usize, bits: usize)
    requires
        pixel_bits(bits as int),
        to < cells(old(target)@.len() as int, bits as int),
        from < cells(source@.len() as int, bits as int),
    ensures
        final(target)@.len() == old(target)@.len(),
        forall|x: int|
            0 <= x < cells(old(target)@.len() as int, bits as int) ==> #[trigger] file::pixel_at(
                final(target)@,
                x,
                bits as int,
            ) == if x == to {
                file::pixel_at(source@, from as int, bits as int)
            } else {
                file::pixel_at(old(target)@, x, bits as int)
            },
{
    if bits >= 8 {
        put_bytes(target, to, source, from, bits / 8);
    } else {
        put_slot(target, to, source, from, bits);
    }
}

/// Where the sample `x` of a packed row is.
pub proof fn lemma_cell(x: int, bits: int, bytes: int)
    requires
        bits == 1 || bits == 2 || bits == 4,
        0 <= x < cells(bytes, bits),
    ensures
        x * bits / 8 == x / (8int / bits),
        x * bits % 8 == x % (8int / bits) * bits,
        0 <= x / (8int / bits) < bytes,
        0 <= x % (8int / bits) * bits <= 8 - bits,
        (x % (8int / bits) * bits) % bits == 0,
        8int / bits == (if bits == 1 {
            8int
        } else if bits == 2 {
            4
        } else {
            2
        }),
{
    if bits == 1 {
        assert(8int / bits == 8);
    } else if bits == 2 {
        assert(8int / bits == 4);
        assert(x * bits == x * 2);
    } else {
        assert(8int / bits == 2);
        assert(x * bits == x * 4);
    }
}

fn put_slot(target: &mut [u8], to: usize, source: &[u8], from: usize, bits: usize)
    requires
        bits == 1 || bits == 2 || bits == 4,
        to < cells(old(target)@.len() as int, bits as int),
        from < cells(source@.len() as int, bits as int),
    ensures
        final(target)@.len() == old(target)@.len(),
        forall|x: int|
            0 <= x < cells(old(target)@.len() as int, bits as int) ==> #[trigger] file::pixel_at(
                final(target)@,
                x,
                bits as int,
            ) == if x == to {
                file::pixel_at(source@, from as int, bits as int)
            } else {
                file::pixel_at(old(target)@, x, bits as int)
            },
{
    let per: usize = if bits == 1 {
        8
    } else if bits == 2 {
        4
    } else {
        2
    };
    proof {
        lemma_cell(from as int, bits as int, source@.len() as int);
        lemma_cell(to as int, bits as int, target@.len() as int);
    }
    let small: u8 = bits as u8;
    let from_at: u8 = (from % per * bits) as u8;
    let to_at: u8 = (to % per * bits) as u8;
    proof {
        lemma_slot_range(source@[from as int / per as int], small, from_at);
    }
    let mask: u8 = (1u8 << small) - 1;
    let value: u8 = (source[from / per] >> (8 - small - from_at)) & mask;
    let shift: u8 = 8 - small - to_at;
    let byte: u8 = target[to / per];
    target[to / per] = (byte & !(mask << shift)) | (value << shift);
    proof {
        assert(target@[to as int / per as int] == file::with_slot(byte, small, to_at, value));
        assert forall|x: int|
            0 <= x < cells(
                old(target)@.len() as int,
                bits as int,
            ) implies #[trigger] file::pixel_at(target@, x, bits as int) == if x == to {
            file::pixel_at(source@, from as int, bits as int)
        } else {
            file::pixel_at(old(target)@, x, bits as int)
        } by {
            let at = (x * bits % 8) as u8;
            lemma_cell(x, bits as int, target@.len() as int);
            if x / per as int == to as int / per as int {
                lemma_slots(byte, small, to_at, at, value);
            }
        }
    }
}

proof fn lemma_pixel_apart(x: int, to: int, pixel: int)
    requires
        pixel >= 1,
    ensures
        x < to ==> (x + 1) * pixel <= to * pixel,
        x > to ==> (to + 1) * pixel <= x * pixel,
        (x + 1) * pixel == x * pixel + pixel,
{
    if x < to {
        lemma_mul_inequality(x + 1, to, pixel);
    }
    if x > to {
        lemma_mul_inequality(to + 1, x, pixel);
    }
    lemma_mul_is_distributive_add_other_way(pixel, x, 1);
}

fn put_bytes(target: &mut [u8], to: usize, source: &[u8], from: usize, pixel: usize)
    requires
        1 <= pixel <= 8,
        to < cells(old(target)@.len() as int, pixel * 8),
        from < cells(source@.len() as int, pixel * 8),
    ensures
        final(target)@.len() == old(target)@.len(),
        forall|x: int|
            0 <= x < cells(old(target)@.len() as int, pixel * 8) ==> #[trigger] file::pixel_at(
                final(target)@,
                x,
                pixel * 8,
            ) == if x == to {
                file::pixel_at(source@, from as int, pixel * 8)
            } else {
                file::pixel_at(old(target)@, x, pixel * 8)
            },
{
    let (n, m): (usize, usize) = (target.len(), source.len());
    let ghost count = cells(target@.len() as int, pixel * 8);
    let ghost len = target@.len() as int;
    proof {
        lemma_fundamental_div_mod(len, pixel as int);
        lemma_fundamental_div_mod(source@.len() as int, pixel as int);
        lemma_pixel_apart(to as int, count, pixel as int);
        lemma_pixel_apart(from as int, source@.len() as int / pixel as int, pixel as int);
        lemma_mul_is_commutative(count, pixel as int);
        lemma_mul_is_commutative(source@.len() as int / pixel as int, pixel as int);
        lemma_mul_nonnegative(to as int, pixel as int);
        lemma_mul_nonnegative(from as int, pixel as int);
        assert(count == len / pixel as int);
        assert((to + 1) * pixel <= len);
        assert((from + 1) * pixel <= source@.len());
        assert(to * pixel + pixel <= len);
        assert(from * pixel + pixel <= source@.len());
    }
    let base: usize = to * pixel;
    let start: usize = from * pixel;
    for c in 0..pixel
        invariant
            base + pixel <= n == target@.len() == len,
            start + pixel <= m == source@.len(),
            target@.len() == old(target)@.len(),
            forall|i: int|
                0 <= i < len ==> #[trigger] target@[i] == if base <= i < base + c {
                    source@[start + i - base]
                } else {
                    old(target)@[i]
                },
    {
        target[base + c] = source[start + c];
    }
    proof {
        assert forall|x: int| 0 <= x < count implies #[trigger] file::pixel_at(
            target@,
            x,
            pixel * 8,
        ) == if x == to {
            file::pixel_at(source@, from as int, pixel * 8)
        } else {
            file::pixel_at(old(target)@, x, pixel * 8)
        } by {
            lemma_pixel_apart(x, to as int, pixel as int);
            lemma_pixel_apart(x, count, pixel as int);
            lemma_pixel_apart(from as int, from as int, pixel as int);
            lemma_mul_nonnegative(x, pixel as int);
            if x == to {
                assert(file::pixel_at(target@, x, pixel * 8) =~= file::pixel_at(
                    source@,
                    from as int,
                    pixel * 8,
                ));
            } else {
                assert(file::pixel_at(target@, x, pixel * 8) =~= file::pixel_at(
                    old(target)@,
                    x,
                    pixel * 8,
                ));
            }
        }
    }
}

/// Whether a pass that takes every `step`-th pixel from `start` on has the pixel `x`.
pub open spec fn picked(x: int, start: int, step: int) -> bool {
    x >= start && (x - start) % step == 0
}

/// Whether two numbers belong to a pass.
pub open spec fn grid(start: int, step: int) -> bool {
    0 <= start <= 4 && (step == 1 || step == 2 || step == 4 || step == 8)
}

/// Pixel `k` of a pass row lies at `start + k * step` of the full row, and no other does.
proof fn lemma_picked(x: int, k: int, start: int, step: int, width: int)
    requires
        grid(start, step),
        0 <= k < common::taken(width, start, step),
    ensures
        picked(start + k * step, start, step),
        (start + k * step - start) / step == k,
        start + k * step < width,
        picked(x, start, step) && (x - start) / step == k ==> x == start + k * step,
        picked(x, start, step) && x < width ==> 0 <= (x - start) / step < common::taken(
            width,
            start,
            step,
        ),
{
    if step == 1 {
        assert(k * step == k);
    } else if step == 2 {
        assert(k * step == k * 2);
    } else if step == 4 {
        assert(k * step == k * 4);
    } else {
        assert(k * step == k * 8);
    }
}

/// The pixels that a row of `width` pixels has room for.
pub proof fn lemma_cells(width: int, bits: int)
    requires
        pixel_bits(bits),
        0 <= width,
    ensures
        width <= cells(common::row_len(width, bits), bits),
        bits >= 8 ==> width == cells(common::row_len(width, bits), bits) && common::row_len(
            width,
            bits,
        ) == width * (bits / 8),
{
    let bytes = common::row_len(width, bits);
    if bits == 1 {
        assert(width * bits == width);
        assert(cells(bytes, bits) == bytes * 8);
    } else if bits == 2 {
        assert(width * bits == width * 2);
        assert(cells(bytes, bits) == bytes * 4);
    } else if bits == 4 {
        assert(width * bits == width * 4);
        assert(cells(bytes, bits) == bytes * 2);
    } else {
        let pixel = bits / 8;
        assert(width * bits == 8 * (width * pixel)) by (nonlinear_arith)
            requires
                bits == 8 * pixel,
        ;
        assert((width * pixel) / pixel == width) by {
            lemma_div_multiples_vanish(width, pixel);
            lemma_mul_is_commutative(width, pixel);
        }
    }
}

/// Writes the pixels of one interlace pass row into their positions in the full row.
fn scatter_row(
    source: &[u8],
    target: &mut [u8],
    pass_width: usize,
    x_start: usize,
    x_step: usize,
    bits: usize,
    Ghost(width): Ghost<int>,
)
    requires
        pixel_bits(bits as int),
        grid(x_start as int, x_step as int),
        0 <= width,
        old(target)@.len() == common::row_len(width, bits as int),
        source@.len() == common::row_len(pass_width as int, bits as int),
        pass_width == common::taken(width, x_start as int, x_step as int),
        width <= usize::MAX,
    ensures
        final(target)@.len() == old(target)@.len(),
        forall|x: int|
            0 <= x < cells(old(target)@.len() as int, bits as int) ==> #[trigger] file::pixel_at(
                final(target)@,
                x,
                bits as int,
            ) == if x < width && picked(x, x_start as int, x_step as int) {
                file::pixel_at(source@, (x - x_start) / x_step as int, bits as int)
            } else {
                file::pixel_at(old(target)@, x, bits as int)
            },
{
    let ghost b = bits as int;
    let ghost s = x_start as int;
    let ghost t = x_step as int;
    proof {
        lemma_cells(width, b);
        lemma_cells(pass_width as int, b);
    }
    for k in 0..pass_width
        invariant
            pixel_bits(b),
            grid(s, t),
            0 <= width <= usize::MAX,
            b == bits && s == x_start && t == x_step,
            target@.len() == old(target)@.len() == common::row_len(width, b),
            source@.len() == common::row_len(pass_width as int, b),
            pass_width == common::taken(width, s, t),
            width <= cells(target@.len() as int, b),
            pass_width <= cells(source@.len() as int, b),
            forall|x: int|
                0 <= x < cells(target@.len() as int, b) ==> #[trigger] file::pixel_at(target@, x, b)
                    == if x < width && picked(x, s, t) && (x - s) / t < k {
                    file::pixel_at(source@, (x - s) / t, b)
                } else {
                    file::pixel_at(old(target)@, x, b)
                },
    {
        proof {
            lemma_picked(0, k as int, s, t, width);
            lemma_mul_nonnegative(k as int, t);
        }
        let ghost before = target@;
        put_pixel(target, x_start + k * x_step, source, k, bits);
        proof {
            assert forall|x: int|
                0 <= x < cells(target@.len() as int, b) implies #[trigger] file::pixel_at(
                target@,
                x,
                b,
            ) == if x < width && picked(x, s, t) && (x - s) / t < k + 1 {
                file::pixel_at(source@, (x - s) / t, b)
            } else {
                file::pixel_at(old(target)@, x, b)
            } by {
                lemma_picked(x, k as int, s, t, width);
                assert(file::pixel_at(before, x, b) == if x < width && picked(x, s, t) && (x - s)
                    / t < k {
                    file::pixel_at(source@, (x - s) / t, b)
                } else {
                    file::pixel_at(old(target)@, x, b)
                });
            }
        }
    }
    proof {
        assert forall|x: int|
            0 <= x < cells(old(target)@.len() as int, b) implies #[trigger] file::pixel_at(
            target@,
            x,
            b,
        ) == if x < width && picked(x, s, t) {
            file::pixel_at(source@, (x - s) / t, b)
        } else {
            file::pixel_at(old(target)@, x, b)
        } by {
            if pass_width > 0 {
                lemma_picked(x, 0, s, t, width);
            }
        }
    }
}

// ---------------------------------------------------------------------------------------
// Whole images
// ---------------------------------------------------------------------------------------

/// Which grid a position lies on shows in its place among eight.
proof fn lemma_grid_place(x: int, start: int, step: int)
    requires
        0 <= x,
        grid(start, step),
        start < step || start == 0,
    ensures
        picked(x, start, step) <==> (x % 8 - start) % step == 0,
{
    let q = x / 8;
    let d = x % 8 - start;
    let per = if step == 1 {
        8int
    } else if step == 2 {
        4
    } else if step == 4 {
        2
    } else {
        1
    };
    lemma_fundamental_div_mod(x, 8);
    lemma_mod_bound(x, 8);
    lemma_mul_is_associative(step, per, q);
    assert(step * per == 8);
    lemma_mod_multiples_vanish(per * q, d, step);
    assert(x - start == step * (per * q) + d);
    if d < 0 {
        lemma_mod_multiples_vanish(1, d, step);
        lemma_mul_basics(step);
        lemma_small_mod((d + step) as nat, step as nat);
    } else {
        lemma_div_pos_is_pos(x, 8);
    }
}

/// Remainders of the numbers below eight.
proof fn lemma_below_eight(a: int)
    requires
        0 <= a < 8,
    ensures
        a % 2 == 1 <==> (a == 1 || a == 3 || a == 5 || a == 7),
        a % 4 == 2 <==> (a == 2 || a == 6),
        a % 8 == 4 <==> a == 4,
        a % 1 == 0,
        a % 2 == 0 <==> (a == 0 || a == 2 || a == 4 || a == 6),
        a % 4 == 0 <==> (a == 0 || a == 4),
        a % 8 == 0 <==> a == 0,
        (a - 1) % 2 == 0 <==> (a == 1 || a == 3 || a == 5 || a == 7),
        (a - 2) % 4 == 0 <==> (a == 2 || a == 6),
        (a - 4) % 8 == 0 <==> a == 4,
{
    if a == 0 {
    } else if a == 1 {
    } else if a == 2 {
    } else if a == 3 {
    } else if a == 4 {
    } else if a == 5 {
    } else if a == 6 {
    } else {
    }
}

/// The passes of the first eight columns and rows.
proof fn lemma_corner_cover(a: int, b: int, pass: int)
    requires
        0 <= a < 8,
        0 <= b < 8,
        0 <= pass < 7,
    ensures
        0 <= file::pass_of(a, b) < 7,
        file::pass_of(a, b) == pass <==> (a - ADAM7_PASSES[pass].0) % ADAM7_PASSES[pass].2 as int
            == 0 && (b - ADAM7_PASSES[pass].1) % ADAM7_PASSES[pass].3 as int == 0,
{
    lemma_below_eight(a);
    lemma_below_eight(b);
    if pass == 0 {
        assert(ADAM7_PASSES[pass] == (0usize, 0usize, 8usize, 8usize));
    } else if pass == 1 {
        assert(ADAM7_PASSES[pass] == (4usize, 0usize, 8usize, 8usize));
    } else if pass == 2 {
        assert(ADAM7_PASSES[pass] == (0usize, 4usize, 4usize, 8usize));
    } else if pass == 3 {
        assert(ADAM7_PASSES[pass] == (2usize, 0usize, 4usize, 4usize));
    } else if pass == 4 {
        assert(ADAM7_PASSES[pass] == (0usize, 2usize, 2usize, 4usize));
    } else if pass == 5 {
        assert(ADAM7_PASSES[pass] == (1usize, 0usize, 2usize, 2usize));
    } else {
        assert(ADAM7_PASSES[pass] == (0usize, 1usize, 1usize, 2usize));
    }
}

/// Remainders among eight stay what they are.
proof fn lemma_place_parts(x: int)
    ensures
        0 <= x % 8 < 8,
        (x % 8) % 2 == x % 2,
        (x % 8) % 4 == x % 4,
        (x % 8) % 8 == x % 8,
{
    lemma_mod_mod(x, 2, 4);
    lemma_mod_mod(x, 4, 2);
    lemma_mod_mod(x, 8, 1);
}

/// The pass of a pixel shows in its place among eight columns and rows.
proof fn lemma_pass_place_of(x: int, y: int)
    requires
        0 <= x,
        0 <= y,
    ensures
        file::pass_of(x, y) == file::pass_of(x % 8, y % 8),
{
    lemma_place_parts(x);
    lemma_place_parts(y);
}

/// The grid of a pass holds a pixel exactly if it holds the pixel's place.
proof fn lemma_corner(
    x: int,
    y: int,
    a: int,
    b: int,
    x_start: int,
    x_step: int,
    y_start: int,
    y_step: int,
    pass: int,
)
    requires
        0 <= x,
        0 <= y,
        a == x % 8,
        b == y % 8,
        0 <= pass < 7,
        grid(x_start, x_step),
        grid(y_start, y_step),
        x_start < x_step || x_start == 0,
        y_start < y_step || y_start == 0,
        x_start == ADAM7_PASSES[pass].0 && x_step == ADAM7_PASSES[pass].2,
        y_start == ADAM7_PASSES[pass].1 && y_step == ADAM7_PASSES[pass].3,
    ensures
        0 <= file::pass_of(a, b) < 7,
        file::pass_of(a, b) == pass <==> picked(x, x_start, x_step) && picked(y, y_start, y_step),
{
    lemma_corner_cover(a, b, pass);
    lemma_grid_place(x, x_start, x_step);
    lemma_grid_place(y, y_start, y_step);
}

/// Every pixel belongs to one pass, the one whose grid it lies on.
pub proof fn law_passes_cover(x: int, y: int, pass: int)
    requires
        0 <= x,
        0 <= y,
        0 <= pass < 7,
    ensures
        0 <= file::pass_of(x, y) < 7,
        file::pass_of(x, y) == pass <==> picked(
            x,
            ADAM7_PASSES[pass].0 as int,
            ADAM7_PASSES[pass].2 as int,
        ) && picked(y, ADAM7_PASSES[pass].1 as int, ADAM7_PASSES[pass].3 as int),
{
    let (x_start, x_step) = (ADAM7_PASSES[pass].0 as int, ADAM7_PASSES[pass].2 as int);
    let (y_start, y_step) = (ADAM7_PASSES[pass].1 as int, ADAM7_PASSES[pass].3 as int);
    lemma_grids(pass);
    lemma_pass_place_of(x, y);
    lemma_corner(x, y, x % 8, y % 8, x_start, x_step, y_start, y_step, pass);
}

pub proof fn lemma_grids(pass: int)
    requires
        0 <= pass < 7,
    ensures
        grid(ADAM7_PASSES[pass].0 as int, ADAM7_PASSES[pass].2 as int),
        grid(ADAM7_PASSES[pass].1 as int, ADAM7_PASSES[pass].3 as int),
        ADAM7_PASSES[pass].0 < ADAM7_PASSES[pass].2 || ADAM7_PASSES[pass].0 == 0,
        ADAM7_PASSES[pass].1 < ADAM7_PASSES[pass].3 || ADAM7_PASSES[pass].1 == 0,
{
    if pass == 0 {
    } else if pass == 1 {
    } else if pass == 2 {
    } else if pass == 3 {
    } else if pass == 4 {
    } else if pass == 5 {
    } else {
    }
}

/// A pixel that nothing was written to yet.
pub open spec fn blank(bits: int) -> Seq<u8> {
    if bits < 8 {
        seq![0u8]
    } else {
        Seq::new((bits / 8) as nat, |i: int| 0u8)
    }
}

/// Whether the pixel at `x` and `y` comes in the first `n` passes or the first `rows` rows of
/// the next.
spec fn done(x: int, y: int, n: int, rows: int) -> bool {
    let pass = file::pass_of(x, y);
    pass < n || (pass == n && (y - ADAM7_PASSES[n].1) / (ADAM7_PASSES[n].3 as int) < rows)
}

/// What a pixel is after the first `n` passes and `rows` rows of the next.
spec fn placed_pixel(
    info: InfoView,
    passes: Seq<Seq<u8>>,
    n: int,
    rows: int,
    x: int,
    y: int,
) -> Seq<u8> {
    if x < info.width && done(x, y, n, rows) {
        file::source_pixel(info, passes, x, y)
    } else {
        blank(info.bits())
    }
}

/// `image` holds the pixels of the first `n` passes and the first `rows` rows of the next.
#[verifier::opaque]
spec fn placed(info: InfoView, passes: Seq<Seq<u8>>, image: Seq<u8>, n: int, rows: int) -> bool {
    &&& image.len() == info.output_size()
    &&& forall|x: int, y: int|
        0 <= y < info.height && 0 <= x < cells(info.row_bytes(), info.bits())
            ==> #[trigger] file::pixel_at(
            file::row_at(image, y, info.row_bytes()),
            x,
            info.bits(),
        ) == placed_pixel(info, passes, n, rows, x, y)
}

/// A pixel of one byte is that byte.
pub proof fn lemma_byte_pixel(row: Seq<u8>, x: int)
    requires
        0 <= x < row.len(),
    ensures
        file::pixel_at(row, x, 8)[0] == row[x],
{
    let one = 8int / 8;
    assert(one == 1);
    assert(x * one == x && (x + 1) * one == x + 1) by (nonlinear_arith)
        requires
            one == 1,
    ;
    assert(file::pixel_at(row, x, 8) == row.subrange(x, x + 1));
}

/// Rows do not overlap, and the last one ends the image.
pub proof fn lemma_row_place(y: int, height: int, row_bytes: int)
    requires
        0 <= y < height,
        0 <= row_bytes,
    ensures
        0 <= y * row_bytes,
        (y + 1) * row_bytes == y * row_bytes + row_bytes,
        (y + 1) * row_bytes <= row_bytes * height,
{
    lemma_mul_is_commutative(height, row_bytes);
    lemma_mul_nonnegative(y, row_bytes);
    lemma_mul_is_distributive_add_other_way(row_bytes, y, 1);
    lemma_mul_inequality(y + 1, height, row_bytes);
}

proof fn lemma_blank(row: Seq<u8>, x: int, bits: int)
    requires
        pixel_bits(bits),
        0 <= x < cells(row.len() as int, bits),
        forall|i: int| 0 <= i < row.len() ==> #[trigger] row[i] == 0,
    ensures
        file::pixel_at(row, x, bits) == blank(bits),
{
    if bits < 8 {
        lemma_cell(x, bits, row.len() as int);
        lemma_slot_range(0, bits as u8, (x * bits % 8) as u8);
        assert(file::pixel_at(row, x, bits) =~= blank(bits));
    } else {
        let pixel = bits / 8;
        lemma_cell_bytes(x, pixel, row.len() as int);
        assert(file::pixel_at(row, x, bits) =~= blank(bits));
    }
}

/// Where the pixel `x` of a row of whole bytes is.
pub proof fn lemma_cell_bytes(x: int, pixel: int, bytes: int)
    requires
        pixel >= 1,
        0 <= x < bytes / pixel,
    ensures
        0 <= x * pixel,
        (x + 1) * pixel == x * pixel + pixel,
        (x + 1) * pixel <= bytes,
{
    lemma_fundamental_div_mod(bytes, pixel);
    lemma_pixel_apart(x, bytes / pixel, pixel);
    lemma_mul_is_commutative(bytes / pixel, pixel);
    lemma_mul_nonnegative(x, pixel);
}

proof fn lemma_placed_start(info: InfoView, image: Seq<u8>)
    requires
        info.checked() is Ok,
        image == common::zeros(info.output_size() as nat),
        info.output_size() >= 0,
    ensures
        placed(info, Seq::empty(), image, 0, 0),
{
    reveal(placed);
    common::lemma_bits(info);
    common::lemma_sizes(info);
    let rb = info.row_bytes();
    assert forall|x: int, y: int|
        0 <= y < info.height && 0 <= x < cells(rb, info.bits()) implies #[trigger] file::pixel_at(
        file::row_at(image, y, rb),
        x,
        info.bits(),
    ) == placed_pixel(info, Seq::empty(), 0, 0, x, y) by {
        lemma_row_place(y, info.height as int, rb);
        lemma_blank(file::row_at(image, y, rb), x, info.bits());
        lemma_nothing_done(x, y);
    }
}

/// Nothing comes before the first row of the first pass.
proof fn lemma_nothing_done(x: int, y: int)
    requires
        0 <= x,
        0 <= y,
    ensures
        !done(x, y, 0, 0),
{
    law_passes_cover(x, y, 0);
}

/// The pixels that are there stay when a pass is added.
proof fn lemma_placed_more(info: InfoView, passes: Seq<Seq<u8>>, image: Seq<u8>, next: Seq<u8>, n: int)
    requires
        0 <= n < 7,
        passes.len() == n,
        placed(info, passes, image, n, 0),
    ensures
        placed(info, passes.push(next), image, n, 0),
{
    reveal(placed);
    let more = passes.push(next);
    assert forall|x: int, y: int|
        0 <= y < info.height && 0 <= x < cells(
            info.row_bytes(),
            info.bits(),
        ) implies #[trigger] file::pixel_at(
        file::row_at(image, y, info.row_bytes()),
        x,
        info.bits(),
    ) == placed_pixel(info, more, n, 0, x, y) by {
        law_passes_cover(x, y, n);
        lemma_grids(n);
        if done(x, y, n, 0) {
            assert(more[file::pass_of(x, y)] == passes[file::pass_of(x, y)]);
        }
    }
}

/// A pass is complete once all its rows are there.
proof fn lemma_placed_pass(info: InfoView, passes: Seq<Seq<u8>>, image: Seq<u8>, n: int, rows: int)
    requires
        0 <= n < 7,
        placed(info, passes, image, n, rows),
        common::pass_width(n, info.width as int) == 0 || rows == common::pass_height(
            n,
            info.height as int,
        ),
    ensures
        placed(info, passes, image, n + 1, 0),
{
    reveal(placed);
    assert forall|x: int, y: int|
        0 <= y < info.height && 0 <= x < cells(
            info.row_bytes(),
            info.bits(),
        ) implies #[trigger] file::pixel_at(
        file::row_at(image, y, info.row_bytes()),
        x,
        info.bits(),
    ) == placed_pixel(info, passes, n + 1, 0, x, y) by {
        law_passes_cover(x, y, n);
        lemma_grids(n);
        if n < 6 {
            law_passes_cover(x, y, n + 1);
            lemma_grids(n + 1);
        }
        if x < info.width && file::pass_of(x, y) == n {
            lemma_taken(x, ADAM7_PASSES[n].0 as int, ADAM7_PASSES[n].2 as int, info.width as int);
            lemma_taken(y, ADAM7_PASSES[n].1 as int, ADAM7_PASSES[n].3 as int, info.height as int);
        }
    }
}

/// A position on a grid has its number among those that the grid takes.
pub proof fn lemma_taken(x: int, start: int, step: int, length: int)
    requires
        grid(start, step),
        picked(x, start, step),
        x < length,
    ensures
        0 <= (x - start) / step < common::taken(length, start, step),
{
    if step == 1 {
    } else if step == 2 {
    } else if step == 4 {
    } else {
    }
}

/// One more row of a pass.
proof fn lemma_placed_row(
    info: InfoView,
    passes: Seq<Seq<u8>>,
    image: Seq<u8>,
    n: int,
    rows: int,
    row: Seq<u8>,
)
    requires
        info.checked() is Ok,
        0 <= n < 7,
        passes.len() == n + 1,
        placed(info, passes, image, n, rows),
        0 <= rows < common::pass_height(n, info.height as int),
        row.len() == info.row_bytes(),
        ({
            let (xs, ys, xt, yt) = ADAM7_PASSES[n];
            let y = ys + rows * yt;
            forall|x: int|
                0 <= x < cells(info.row_bytes(), info.bits()) ==> #[trigger] file::pixel_at(
                    row,
                    x,
                    info.bits(),
                ) == if x < info.width && picked(x, xs as int, xt as int) {
                    file::pixel_at(
                        file::row_at(
                            passes[n],
                            rows,
                            common::row_len(
                                common::pass_width(n, info.width as int),
                                info.bits(),
                            ),
                        ),
                        (x - xs) / xt as int,
                        info.bits(),
                    )
                } else {
                    file::pixel_at(
                        file::row_at(image, y, info.row_bytes()),
                        x,
                        info.bits(),
                    )
                }
        }),
    ensures
        ({
            let y = ADAM7_PASSES[n].1 + rows * ADAM7_PASSES[n].3;
            let at = y * info.row_bytes();
            placed(
                info,
                passes,
                image.take(at) + row + image.skip(at + info.row_bytes()),
                n,
                rows + 1,
            )
        }),
{
    reveal(placed);
    common::lemma_sizes(info);
    let (xs, ys, xt, yt) = ADAM7_PASSES[n];
    let here = ys + rows * yt;
    let rb = info.row_bytes();
    let at = here * rb;
    let next = image.take(at) + row + image.skip(at + rb);
    lemma_grids(n);
    lemma_picked(0, rows, ys as int, yt as int, info.height as int);
    lemma_mul_nonnegative(rows, yt as int);
    lemma_row_place(here, info.height as int, rb);
    assert forall|x: int, y: int|
        0 <= y < info.height && 0 <= x < cells(rb, info.bits()) implies #[trigger] file::pixel_at(
        file::row_at(next, y, rb),
        x,
        info.bits(),
    ) == placed_pixel(info, passes, n, rows + 1, x, y) by {
        lemma_row_place(y, info.height as int, rb);
        lemma_picked(y, rows, ys as int, yt as int, info.height as int);
        law_passes_cover(x, y, n);
        assert(file::pixel_at(file::row_at(image, y, rb), x, info.bits()) == placed_pixel(
            info,
            passes,
            n,
            rows,
            x,
            y,
        ));
        if y == here {
            assert(file::row_at(next, y, rb) =~= row);
            assert(file::pixel_at(row, x, info.bits()) == file::pixel_at(row, x, info.bits()));
        } else {
            lemma_pixel_apart(y, here, rb);
            lemma_pixel_apart(here, y, rb);
            assert(file::row_at(next, y, rb) =~= file::row_at(image, y, rb));
        }
    }
}

/// Where the sample `n - 1` of a byte is.
proof fn lemma_slot_place(bits: int, n: int, at: u8)
    requires
        bits == 1 || bits == 2 || bits == 4,
        1 <= n <= 8int / bits,
        at < 8,
        at as int % bits == 0,
    ensures
        0 <= (n - 1) * bits < 8,
        (n - 1) * bits % bits == 0,
        (n - 1) * bits == at <==> at as int / bits == n - 1,
{
    if bits == 1 {
        assert((n - 1) * bits == n - 1);
    } else if bits == 2 {
        assert((n - 1) * bits == (n - 1) * 2);
    } else {
        assert((n - 1) * bits == (n - 1) * 4);
    }
}

/// Where the sample that begins `at` bits into a byte stands among the others.
pub proof fn lemma_slot_number(bits: int, at: u8)
    requires
        bits == 1 || bits == 2 || bits == 4,
        at < 8,
        at as int % bits == 0,
    ensures
        0 <= at as int / bits < 8int / bits,
        (at as int / bits) * bits == at,
{
    if bits == 1 {
    } else if bits == 2 {
    } else {
    }
}

/// The samples of a packed byte.
pub proof fn lemma_packed_byte(info: InfoView, passes: Seq<Seq<u8>>, first: int, y: int, n: nat, at: u8)
    requires
        info.checked() is Ok,
        info.bits() < 8,
        n <= 8int / info.bits(),
        at < 8,
        at % (info.bits() as u8) == 0,
        forall|x: int|
            first <= x < first + n && x < info.width ==> (#[trigger] file::source_pixel(
                info,
                passes,
                x,
                y,
            ))[0] < (1u8 << (info.bits() as u8)),
    ensures
        file::slot(file::packed_byte(info, passes, first, y, n), info.bits() as u8, at) == ({
            let x = first + (at / info.bits() as u8);
            if x < info.width && x < first + n {
                file::source_pixel(info, passes, x, y)[0]
            } else {
                0
            }
        }),
    decreases n,
{
    common::lemma_bits(info);
    let b = info.bits();
    assert(b == 1 || b == 2 || b == 4);
    let bits = b as u8;
    assert(bits == b);
    if n == 0 {
        lemma_slot_range(0, bits, at);
    } else {
        lemma_packed_byte(info, passes, first, y, (n - 1) as nat, at);
        let before = file::packed_byte(info, passes, first, y, (n - 1) as nat);
        let x = first + n - 1;
        let place = ((n - 1) * info.bits()) as u8;
        lemma_slot_place(b, n as int, at);
        if x < info.width {
            lemma_slots(before, bits, place, at, file::source_pixel(info, passes, x, y)[0]);
        }
    }
}

/// Once every pass is there the image is put together.
proof fn lemma_placed_end(info: InfoView, passes: Seq<Seq<u8>>, image: Seq<u8>)
    requires
        info.checked() is Ok,
        passes.len() == 7,
        placed(info, passes, image, 7, 0),
    ensures
        image == file::woven(info, passes),
{
    reveal(placed);
    common::lemma_bits(info);
    common::lemma_sizes(info);
    let rb = info.row_bytes();
    let bits = info.bits();
    lemma_cells(info.width as int, bits);
    assert forall|i: int| 0 <= i < image.len() implies #[trigger] image[i] == file::woven_byte(
        info,
        passes,
        i,
    ) by {
        let y = i / rb;
        let j = i % rb;
        lemma_fundamental_div_mod(i, rb);
        lemma_mul_is_commutative(rb, y);
        assert(0 <= y < info.height) by {
            lemma_div_pos_is_pos(i, rb);
            lemma_multiply_divide_lt(i, rb, info.height as int);
        }
        lemma_row_place(y, info.height as int, rb);
        let row = file::row_at(image, y, rb);
        assert(row[j] == image[i]);
        if bits < 8 {
            lemma_placed_packed(info, passes, image, y, j);
        } else {
            let pixel = bits / 8;
            let x = j / pixel;
            let c = j % pixel;
            lemma_fundamental_div_mod(j, pixel);
            lemma_mul_is_commutative(pixel, x);
            lemma_div_pos_is_pos(j, pixel);
            assert(x < info.width) by {
                lemma_mul_is_commutative(info.width as int, pixel);
                lemma_multiply_divide_lt(j, pixel, info.width as int);
            }
            law_passes_cover(x, y, 0);
            lemma_cell_bytes(x, pixel, rb);
            assert(file::pixel_at(row, x, bits)[c] == row[j]);
            assert(file::pixel_at(row, x, bits) == placed_pixel(info, passes, 7, 0, x, y));
        }
    }
    assert(image =~= file::woven(info, passes));
}

/// The samples that share byte `j` of a packed row.
pub proof fn lemma_byte_cells(j: int, bytes: int, bits: int, x: int)
    requires
        bits == 1 || bits == 2 || bits == 4,
        0 <= j < bytes,
        j * (8int / bits) <= x < j * (8int / bits) + 8int / bits,
    ensures
        0 <= x < cells(bytes, bits),
        x * bits / 8 == j,
        x * bits % 8 == (x - j * (8int / bits)) * bits,
        0 <= x * bits % 8 < 8,
        (x * bits % 8) % bits == 0,
{
    if bits == 1 {
        assert(8int / bits == 8);
    } else if bits == 2 {
        assert(8int / bits == 4);
        assert(x * bits == x * 2);
        assert((x - j * 4) * bits == (x - j * 4) * 2);
    } else {
        assert(8int / bits == 2);
        assert(x * bits == x * 4);
        assert((x - j * 2) * bits == (x - j * 2) * 4);
    }
}

proof fn lemma_placed_packed(info: InfoView, passes: Seq<Seq<u8>>, image: Seq<u8>, y: int, j: int)
    requires
        info.checked() is Ok,
        info.bits() < 8,
        placed(info, passes, image, 7, 0),
        0 <= y < info.height,
        0 <= j < info.row_bytes(),
    ensures
        file::row_at(image, y, info.row_bytes())[j] == file::packed_byte(
            info,
            passes,
            j * (8int / info.bits()),
            y,
            (8int / info.bits()) as nat,
        ),
{
    reveal(placed);
    common::lemma_bits(info);
    let b = info.bits();
    assert(b == 1 || b == 2 || b == 4);
    let bits = b as u8;
    assert(bits == b);
    let per = 8int / info.bits();
    let rb = info.row_bytes();
    let row = file::row_at(image, y, rb);
    let first = j * per;
    let n = per as nat;
    lemma_row_place(y, info.height as int, rb);
    common::lemma_sizes(info);
    assert forall|x: int| first <= x < first + per implies (#[trigger] file::pixel_at(
        row,
        x,
        info.bits(),
    )) == placed_pixel(info, passes, 7, 0, x, y) && file::pixel_at(row, x, info.bits())
        == seq![file::slot(row[j], bits, (x * info.bits() % 8) as u8)] by {
        lemma_byte_cells(j, rb, info.bits(), x);
    }
    assert forall|x: int|
        first <= x < first + n && x < info.width implies (#[trigger] file::source_pixel(
        info,
        passes,
        x,
        y,
    ))[0] < (1u8 << bits) by {
        lemma_byte_cells(j, rb, info.bits(), x);
        law_passes_cover(x, y, 0);
        assert(file::pixel_at(row, x, info.bits()).len() == 1);
        lemma_slot_range(row[j], bits, (x * info.bits() % 8) as u8);
    }
    let whole = file::packed_byte(info, passes, first, y, n);
    assert forall|at: u8| at < 8 && at % bits == 0 implies #[trigger] file::slot(row[j], bits, at)
        == file::slot(whole, bits, at) by {
        lemma_packed_byte(info, passes, first, y, n, at);
        let x = first + at / bits;
        lemma_slot_number(b, at);
        assert(first <= x < first + per);
        lemma_byte_cells(j, rb, info.bits(), x);
        assert(x * info.bits() % 8 == at);
        law_passes_cover(x, y, 0);
        assert(file::pixel_at(row, x, info.bits())[0] == file::slot(row[j], bits, at));
        assert(placed_pixel(info, passes, 7, 0, x, y)[0] == file::slot(row[j], bits, at));
        assert(done(x, y, 7, 0));
        assert(blank(info.bits())[0] == 0);
    }
    lemma_same_slots(row[j], whole, bits);
}

/// Reverses the filters of pass `pass`, which stands at `offset` of `buffer`.
fn unfilter_pass(
    buffer: &mut [u8],
    offset: usize,
    row_bytes: usize,
    rows: usize,
    stride: usize,
    Ghost(info): Ghost<InfoView>,
    Ghost(pass): Ghost<int>,
) -> (result: Result<(), usize>)
    requires
        info.checked() is Ok,
        0 <= pass < 7,
        stride == info.stride(),
        rows == common::pass_height(pass, info.height as int),
        rows > 0,
        common::pass_width(pass, info.width as int) > 0,
        row_bytes == common::row_len(common::pass_width(pass, info.width as int), info.bits()),
        offset == common::passes_len(info.width as int, info.height as int, info.bits(), pass),
        offset + common::pass_len(info.width as int, info.height as int, info.bits(), pass) <= old(buffer)@.len(),
    ensures
        final(buffer)@.len() == old(buffer)@.len(),
        ({
            let length = common::pass_len(info.width as int, info.height as int, info.bits(), pass);
            &&& final(buffer)@.skip(offset + length) == old(buffer)@.skip(offset + length)
            &&& match result {
                Ok(()) => offset + rows * row_bytes <= final(buffer)@.len()
                    && file::unfiltered_pass(info, old(buffer)@, pass) == Ok::<Seq<u8>, int>(
                    final(buffer)@.subrange(offset as int, offset + rows * row_bytes),
                ),
                Err(row) => row < rows && file::unfiltered_pass(info, old(buffer)@, pass) == Err::<
                    Seq<u8>,
                    int,
                >(row as int),
            }
        }),
{
    let ghost all = buffer@;
    let total: usize = buffer.len();
    proof {
        common::lemma_bits(info);
        common::lemma_pass(pass, info.width as int, info.height as int);
        common::lemma_pass_len(info.width as int, info.height as int, info.bits(), pass);
        lemma_mul_is_commutative(1 + row_bytes as int, rows as int);
        lemma_mul_is_distributive_add(rows as int, 1, row_bytes as int);
        lemma_mul_nonnegative(rows as int, row_bytes as int);
        lemma_mul_is_commutative(rows as int, 1 + row_bytes as int);
        filter::lemma_unfiltered_rows_error(
            all.subrange(offset as int, offset + rows * (1 + row_bytes)),
            row_bytes as nat,
            stride as nat,
            rows as nat,
        );
    }
    let length: usize = rows * (1 + row_bytes);
    let (left, rest) = buffer.split_at_mut(offset);
    let (region, right) = rest.split_at_mut(length);
    assert(region@ =~= all.subrange(offset as int, offset + length));
    assert(right@ =~= all.skip(offset + length));
    let result = unfilter_image(region, row_bytes, rows, stride);
    let ghost whole = left@ + (region@ + right@);
    assert(whole.skip(offset + length) =~= right@);
    assert(whole.subrange(offset as int, offset + rows * row_bytes) =~= region@.take(
        rows * row_bytes,
    ));
    result
}

/// Copies the rows of a pass to where they belong.
fn scatter_pass(
    info: &Info,
    image: &mut Vec<u8>,
    pixels: &[u8],
    pass: usize,
    across: usize,
    down: usize,
    Ghost(passes): Ghost<Seq<Seq<u8>>>,
)
    requires
        info@.checked() is Ok,
        pass < 7,
        across == common::pass_width(pass as int, info.width as int),
        down == common::pass_height(pass as int, info.height as int),
        across > 0,
        passes.len() == pass + 1,
        pixels@ == passes[pass as int],
        pixels@.len() == down * common::row_len(across as int, info@.bits()),
        placed(info@, passes, old(image)@, pass as int, 0),
    ensures
        placed(info@, passes, final(image)@, pass + 1, 0),
{
    proof {
        common::lemma_sizes(info@);
        common::lemma_bits(info@);
        lemma_grids(pass as int);
        common::lemma_pass(pass as int, info.width as int, info.height as int);
    }
    let bits: usize = info.bits_per_pixel();
    let row_bytes: usize = info.row_bytes();
    let (x_start, y_start, x_step, y_step) = ADAM7_PASSES[pass];
    proof {
        assert(across * bits <= 0xffff_ffff * 64) by (nonlinear_arith)
            requires
                across <= 0xffff_ffff,
                bits <= 64,
        ;
        assert(across * bits <= info.width * bits) by (nonlinear_arith)
            requires
                across <= info.width,
                bits >= 1,
        ;
    }
    let pass_row_bytes: usize = row_bytes_for(across, bits);
    let size: usize = pixels.len();
    for row in 0..down
        invariant
            size == pixels@.len(),
            info@.checked() is Ok,
            pass < 7,
            bits == info@.bits(),
            pixel_bits(bits as int),
            row_bytes == info@.row_bytes(),
            info@.output_size() <= usize::MAX,
            info@.width == info.width && info@.height == info.height,
            ADAM7_PASSES[pass as int] == (x_start, y_start, x_step, y_step),
            grid(x_start as int, x_step as int),
            grid(y_start as int, y_step as int),
            across == common::pass_width(pass as int, info.width as int),
            down == common::pass_height(pass as int, info.height as int),
            pass_row_bytes == common::row_len(across as int, bits as int),
            pixels@ == passes[pass as int],
            pixels@.len() == down * pass_row_bytes,
            passes.len() == pass + 1,
            placed(info@, passes, image@, pass as int, row as int),
    {
        let ghost y = y_start + row * y_step;
        proof {
            lemma_picked(0, row as int, y_start as int, y_step as int, info.height as int);
            lemma_mul_nonnegative(row as int, y_step as int);
            lemma_row_place(y, info.height as int, row_bytes as int);
            lemma_row_place(row as int, down as int, pass_row_bytes as int);
            lemma_mul_is_commutative(down as int, pass_row_bytes as int);
            lemma_placed_len(info@, passes, image@, pass as int, row as int);
        }
        let from: usize = row * pass_row_bytes;
        let source: &[u8] = &pixels[from..from + pass_row_bytes];
        let at: usize = (y_start + row * y_step) * row_bytes;
        let ghost before = image@;
        assert(source@ =~= file::row_at(passes[pass as int], row as int, pass_row_bytes as int));
        let (left, rest) = image.as_mut_slice().split_at_mut(at);
        let (target, right) = rest.split_at_mut(row_bytes);
        assert(target@ =~= file::row_at(before, y, row_bytes as int));
        scatter_row(source, target, across, x_start, x_step, bits, Ghost(info@.width as int));
        proof {
            assert(left@ =~= before.take(at as int));
            assert(right@ =~= before.skip(at + row_bytes));
            lemma_placed_row(info@, passes, before, pass as int, row as int, target@);
            assert(left@ + (target@ + right@) =~= before.take(at as int) + target@ + before.skip(
                at + row_bytes,
            ));
        }
    }
    proof {
        lemma_placed_pass(info@, passes, image@, pass as int, down as int);
    }
}

proof fn lemma_placed_len(info: InfoView, passes: Seq<Seq<u8>>, image: Seq<u8>, n: int, rows: int)
    requires
        placed(info, passes, image, n, rows),
    ensures
        image.len() == info.output_size(),
{
    reveal(placed);
}

/// A pass is read from its own part of the data.
proof fn lemma_pass_local(info: InfoView, a: Seq<u8>, b: Seq<u8>, pass: int, at: int)
    requires
        0 <= at <= common::passes_len(info.width as int, info.height as int, info.bits(), pass),
        a.len() == b.len(),
        a.skip(at) == b.skip(at),
        common::passes_len(info.width as int, info.height as int, info.bits(), pass)
            + common::pass_len(info.width as int, info.height as int, info.bits(), pass) <= a.len(),
        common::pass_len(info.width as int, info.height as int, info.bits(), pass) >= 0,
    ensures
        file::unfiltered_pass(info, a, pass) == file::unfiltered_pass(info, b, pass),
{
    let start = common::passes_len(info.width as int, info.height as int, info.bits(), pass);
    let length = common::pass_len(info.width as int, info.height as int, info.bits(), pass);
    assert forall|i: int| start <= i < start + length implies a[i] == b[i] by {
        assert(a.skip(at)[i - at] == b.skip(at)[i - at]);
    }
    assert(a.subrange(start, start + length) =~= b.subrange(start, start + length));
}

/// Once a pass fails, the image does.
proof fn lemma_failed_pass(info: InfoView, raw: Seq<u8>, n: int, m: int)
    requires
        0 <= n <= m,
        file::unfiltered_passes(info, raw, n) is Err,
    ensures
        file::unfiltered_passes(info, raw, m) == file::unfiltered_passes(info, raw, n),
    decreases m,
{
    if n < m {
        lemma_failed_pass(info, raw, n, m - 1);
    }
}

/// The rows of a pass, which has none if it has no columns.
spec fn rows_of(info: InfoView, pass: int) -> int {
    if common::pass_width(pass, info.width as int) > 0 {
        common::pass_height(pass, info.height as int)
    } else {
        0
    }
}

/// A pass has no more rows than bytes, and ends within the data.
proof fn lemma_pass_place(info: InfoView, pass: int)
    requires
        info.checked() is Ok,
        info.decompressed_size() <= usize::MAX,
        info.interlacing is Adam7,
        0 <= pass < 7,
    ensures
        ({
            let w = info.width as int;
            let h = info.height as int;
            let across = common::pass_width(pass, w);
            let down = common::pass_height(pass, h);
            let row_bytes = common::row_len(across, info.bits());
            let length = common::pass_len(w, h, info.bits(), pass);
            let at = common::passes_len(w, h, info.bits(), pass);
            &&& 0 <= across <= w
            &&& 0 <= down <= h
            &&& across * info.bits() <= 0xffff_ffff * 64
            &&& 0 <= at
            &&& at + length == common::passes_len(w, h, info.bits(), pass + 1)
            &&& at + length <= info.decompressed_size() <= usize::MAX
            &&& 0 <= rows_of(info, pass) <= length
            &&& file::rows_before(info, pass + 1) == file::rows_before(info, pass) + rows_of(
                info,
                pass,
            )
            &&& (across == 0 || down == 0) ==> length == 0
            &&& across > 0 && down > 0 ==> {
                &&& 0 <= down * row_bytes
                &&& row_bytes < length
                &&& length == down * row_bytes + down
            }
        }),
{
    let w = info.width as int;
    let h = info.height as int;
    common::lemma_bits(info);
    common::lemma_sizes(info);
    common::lemma_pass(pass, w, h);
    common::lemma_pass_len(w, h, info.bits(), pass);
    common::lemma_passes_len(w, h, info.bits(), pass);
    common::lemma_passes_monotonic(w, h, info.bits(), pass + 1, 7);
    let across = common::pass_width(pass, w);
    let down = common::pass_height(pass, h);
    let row_bytes = common::row_len(across, info.bits());
    let bits = info.bits();
    assert(across * bits <= 0xffff_ffff * 64) by (nonlinear_arith)
        requires
            0 <= across <= 0xffff_ffff,
            1 <= bits <= 64,
    ;
    assert((1 + row_bytes) * down == down * row_bytes + down) by (nonlinear_arith);
    if across > 0 && down > 0 {
        lemma_mul_nonnegative(down, row_bytes);
    }
}

/// How far the passes before `pass` have been unfiltered and placed.
#[verifier::opaque]
spec fn underway(info: InfoView, raw: Seq<u8>, buffer: Seq<u8>, image: Seq<u8>, pass: int) -> bool {
    let at = common::passes_len(info.width as int, info.height as int, info.bits(), pass);
    let passes = file::unfiltered_passes(info, raw, pass);
    &&& buffer.len() == raw.len()
    &&& raw.len() == info.decompressed_size()
    &&& buffer.skip(at) == raw.skip(at)
    &&& passes is Ok
    &&& passes->Ok_0.len() == pass
    &&& placed(info, passes->Ok_0, image, pass, 0)
}

/// The passes that are still to come are those of the data.
proof fn lemma_underway(info: InfoView, raw: Seq<u8>, buffer: Seq<u8>, image: Seq<u8>, pass: int)
    requires
        info.checked() is Ok,
        info.decompressed_size() <= usize::MAX,
        info.interlacing is Adam7,
        0 <= pass < 7,
        underway(info, raw, buffer, image, pass),
    ensures
        buffer.len() == raw.len(),
        raw.len() == info.decompressed_size(),
        file::unfiltered_pass(info, buffer, pass) == file::unfiltered_pass(info, raw, pass),
{
    reveal(underway);
    lemma_pass_place(info, pass);
    let at = common::passes_len(info.width as int, info.height as int, info.bits(), pass);
    lemma_pass_local(info, buffer, raw, pass, at);
}

/// One more pass in place.
proof fn lemma_one_more(
    info: InfoView,
    raw: Seq<u8>,
    held: Seq<u8>,
    buffer: Seq<u8>,
    before: Seq<u8>,
    image: Seq<u8>,
    pass: int,
    pixels: Seq<u8>,
)
    requires
        info.checked() is Ok,
        info.decompressed_size() <= usize::MAX,
        info.interlacing is Adam7,
        0 <= pass < 7,
        underway(info, raw, held, before, pass),
        file::unfiltered_pass(info, raw, pass) == Ok::<Seq<u8>, int>(pixels),
        buffer.len() == held.len(),
        ({
            let next = common::passes_len(
                info.width as int,
                info.height as int,
                info.bits(),
                pass + 1,
            );
            buffer.skip(next) == held.skip(next)
        }),
        placed(
            info,
            file::unfiltered_passes(info, raw, pass)->Ok_0.push(pixels),
            image,
            pass + 1,
            0,
        ),
    ensures
        underway(info, raw, buffer, image, pass + 1),
{
    reveal(underway);
    lemma_pass_place(info, pass);
    let at = common::passes_len(info.width as int, info.height as int, info.bits(), pass);
    let length = common::pass_len(info.width as int, info.height as int, info.bits(), pass);
    assert(held.skip(at + length) =~= held.skip(at).skip(length));
    assert(raw.skip(at + length) =~= raw.skip(at).skip(length));
}

/// Unfilters one pass and scatters it into the image. Yields the end of the pass, or the row
/// of the pass whose filter byte is invalid.
fn place_pass(
    info: &Info,
    buffer: &mut [u8],
    image: &mut Vec<u8>,
    pass: usize,
    offset: usize,
    Ghost(raw): Ghost<Seq<u8>>,
) -> (result: Result<usize, usize>)
    requires
        info@.checked() is Ok,
        info@.decompressed_size() <= usize::MAX,
        info.interlacing is Adam7,
        pass < 7,
        offset == common::passes_len(
            info.width as int,
            info.height as int,
            info@.bits(),
            pass as int,
        ),
        underway(info@, raw, old(buffer)@, old(image)@, pass as int),
    ensures
        match result {
            Ok(next) => {
                &&& next == common::passes_len(
                    info.width as int,
                    info.height as int,
                    info@.bits(),
                    pass + 1,
                )
                &&& underway(info@, raw, final(buffer)@, final(image)@, pass + 1)
            },
            Err(row) => {
                &&& row < rows_of(info@, pass as int)
                &&& file::unfiltered_passes(info@, raw, pass + 1) == Err::<Seq<Seq<u8>>, int>(
                    file::rows_before(info@, pass as int) + row,
                )
            },
        },
{
    let ghost view = info@;
    let ghost held = buffer@;
    let ghost before = image@;
    let ghost passes = file::unfiltered_passes(view, raw, pass as int)->Ok_0;
    let bits: usize = info.bits_per_pixel();
    let stride: usize = info.filter_stride();
    let (across, down) = adam7_pass_size(pass, info.width as usize, info.height as usize);
    proof {
        lemma_pass_place(view, pass as int);
        lemma_underway(view, raw, held, before, pass as int);
    }
    if across == 0 || down == 0 {
        proof {
            assert(placed(view, passes.push(Seq::empty()), before, pass + 1, 0)) by {
                reveal(underway);
                lemma_placed_more(view, passes, before, Seq::empty(), pass as int);
                lemma_placed_pass(view, passes.push(Seq::empty()), before, pass as int, 0);
            }
            lemma_one_more(view, raw, held, held, before, before, pass as int, Seq::empty());
        }
        return Ok(offset);
    }
    let pass_row_bytes: usize = row_bytes_for(across, bits);
    match unfilter_pass(
        buffer,
        offset,
        pass_row_bytes,
        down,
        stride,
        Ghost(view),
        Ghost(pass as int),
    ) {
        Ok(()) => {},
        Err(row) => {
            proof {
                reveal(underway);
            }
            return Err(row);
        },
    }
    let pixels: &[u8] = &buffer[offset..offset + down * pass_row_bytes];
    proof {
        assert(passes.len() == pass && placed(view, passes.push(pixels@), before, pass as int, 0))
            by {
            reveal(underway);
            lemma_placed_more(view, passes, before, pixels@, pass as int);
        }
    }
    scatter_pass(info, image, pixels, pass, across, down, Ghost(passes.push(pixels@)));
    proof {
        lemma_one_more(view, raw, held, buffer@, before, image@, pass as int, pixels@);
    }
    Ok(offset + (down * pass_row_bytes + down))
}

/// Unfilters each Adam7 pass in place and scatters the passes into a single image.
pub fn deinterlace(info: &Info, buffer: &mut [u8]) -> (result: Result<Vec<u8>, Error>)
    requires
        info@.checked() is Ok,
        info.interlacing is Adam7,
        old(buffer)@.len() == info@.decompressed_size(),
    ensures
        match result {
            Ok(image) => file::pixels(info@, old(buffer)@) == Ok::<Seq<u8>, Error>(image@),
            Err(Error::OutOfMemory { bytes }) => bytes == info@.output_size(),
            Err(error) => file::pixels(info@, old(buffer)@) == Err::<Seq<u8>, Error>(error),
        },
{
    proof {
        common::lemma_sizes(info@);
        common::lemma_bits(info@);
    }
    let ghost raw = buffer@;
    let total: usize = buffer.len();
    assert(info@.decompressed_size() == total);
    let request: usize = info.output_size();
    let mut image = match zeroed_vec(request) {
        Some(image) => image,
        None => {
            return Err(Error::OutOfMemory { bytes: request });
        },
    };
    let mut offset: usize = 0;
    let mut row_counter: usize = 0;
    proof {
        lemma_placed_start(info@, image@);
        reveal(underway);
    }
    let mut pass: usize = 0;
    while pass < 7
        invariant
            pass <= 7,
            info@.checked() is Ok,
            info.interlacing is Adam7,
            raw == old(buffer)@,
            raw.len() == info@.decompressed_size() <= usize::MAX,
            offset == common::passes_len(
                info.width as int,
                info.height as int,
                info@.bits(),
                pass as int,
            ),
            row_counter == file::rows_before(info@, pass as int),
            row_counter <= offset <= raw.len(),
            underway(info@, raw, buffer@, image@, pass as int),
        decreases 7 - pass,
    {
        proof {
            lemma_pass_place(info@, pass as int);
            lemma_underway(info@, raw, buffer@, image@, pass as int);
        }
        let (across, down) = adam7_pass_size(pass, info.width as usize, info.height as usize);
        match place_pass(info, buffer, &mut image, pass, offset, Ghost(raw)) {
            Ok(next) => {
                offset = next;
            },
            Err(row) => {
                proof {
                    lemma_failed_pass(info@, raw, pass + 1, 7);
                }
                return Err(Error::InvalidFilter { row: row_counter + row });
            },
        }
        if across > 0 {
            row_counter += down;
        }
        pass += 1;
    }
    proof {
        reveal(underway);
        lemma_placed_end(info@, file::unfiltered_passes(info@, raw, 7)->Ok_0, image@);
    }
    Ok(image)
}

} // verus!
