//! The colours that an image is converted to, pixel by pixel and from the bits of its data.

use vstd::prelude::*;
use vstd::arithmetic::div_mod::*;
use vstd::arithmetic::mul::*;
use vstd::arithmetic::power2::*;
use crate::bits;
use crate::common;
use crate::common::{ColorType, InfoView};
use crate::corpus;
use crate::error::Error;
use crate::file;
use crate::file::ImageView;
use crate::interlace;
use crate::laws;
use crate::transform;

verus! {

// ---------------------------------------------------------------------------------------
// Samples
// ---------------------------------------------------------------------------------------

/// Bit `i` of `data`, where the bits of a byte count from the left.
pub open spec fn left_bit(data: Seq<u8>, i: int) -> int {
    (data[i / 8] as int / pow2((7 - i % 8) as nat) as int) % 2
}

/// The number that the `n` bits from bit `at` on spell, the most significant one first.
pub open spec fn number(data: Seq<u8>, at: int, n: nat) -> int
    decreases n,
{
    if n == 0 {
        0
    } else {
        2 * number(data, at, (n - 1) as nat) + left_bit(data, at + n - 1)
    }
}

/// Sample `c` of the pixel at column `x` and row `y`. The samples of a row follow each other
/// without a gap, and every row begins with a byte.
pub open spec fn sample(image: ImageView, x: int, y: int, c: int) -> int {
    let depth = common::depth_bits(image.info.bit_depth);
    let count = common::samples_of(image.info.color_type);
    number(
        image.data,
        8 * (y * ((image.info.width * (count * depth) + 7) / 8)) + (x * count + c) * depth,
        depth as nat,
    )
}

/// Whether a byte stands for a sample: of sixteen bits the upper eight, and of fewer the
/// level whose share of 255 is the sample's share of its greatest value.
pub open spec fn stands_for(byte: u8, value: int, depth: int) -> bool {
    if depth == 16 {
        byte == value / 256
    } else {
        byte * (pow2(depth as nat) - 1) == 255 * value
    }
}

/// Where the bytes of the pixel at column `x` and row `y` begin.
pub open spec fn place(image: ImageView, x: int, y: int) -> int {
    4 * (y * image.info.width + x)
}

/// Whether there is a pixel at column `x` and row `y` of an image whose data is all there.
pub open spec fn inside(image: ImageView, x: int, y: int) -> bool {
    &&& common::depth_allowed(image.info.color_type, image.info.bit_depth)
    &&& image.info.output_size() <= image.data.len()
    &&& 0 <= x < image.info.width
    &&& 0 <= y < image.info.height
}

/// Bits of one byte.
pub proof fn lemma_number_in_byte(data: Seq<u8>, i: int, a: int, n: nat)
    requires
        0 <= i,
        0 <= a,
        a + n <= 8,
    ensures
        number(data, 8 * i + a, n) == (data[i] as int / pow2((8 - a - n) as nat) as int) % (pow2(
            n,
        ) as int),
    decreases n,
{
    bits::lemma_pow2_small();
    let byte = data[i] as int;
    if n == 0 {
    } else {
        let m = (n - 1) as nat;
        let k = (8 - a - n) as nat;
        lemma_number_in_byte(data, i, a, m);
        lemma_pow2_pos(k);
        lemma_pow2_pos(m);
        bits::lemma_pow2_step(k);
        bits::lemma_pow2_step(m);
        let v = byte / pow2(k) as int;
        lemma_div_denominator(byte, pow2(k) as int, 2);
        lemma_mul_is_commutative(pow2(k) as int, 2);
        assert(v / 2 == byte / pow2(k + 1) as int);
        lemma_div_pos_is_pos(byte, pow2(k) as int);
        lemma_mod_breakdown(v, 2, pow2(m) as int);
        let at = 8 * i + a + n - 1;
        assert(at / 8 == i && at % 8 == a + n - 1);
        assert((7 - at % 8) as nat == k);
    }
}

/// A number put together from its leading and its trailing bits.
proof fn lemma_number_split(data: Seq<u8>, at: int, n: nat)
    ensures
        number(data, at, 8 + n) == number(data, at, 8) * pow2(n) + number(data, at + 8, n),
    decreases n,
{
    bits::lemma_pow2_small();
    let high = number(data, at, 8);
    if n > 0 {
        let m = (n - 1) as nat;
        lemma_number_split(data, at, m);
        bits::lemma_pow2_step(m);
        assert((8 + n - 1) as nat == 8 + m);
        assert(high * pow2(n) == 2 * (high * pow2(m))) by (nonlinear_arith)
            requires
                pow2(n) == 2 * pow2(m),
        ;
        assert(number(data, at, 8 + n) == 2 * number(data, at, 8 + m) + left_bit(
            data,
            at + 8 + n - 1,
        ));
    } else {
        assert(high * pow2(0) == high) by (nonlinear_arith)
            requires
                pow2(0) == 1,
        ;
    }
}

/// Whole bytes, and pairs of them.
proof fn lemma_number_bytes(data: Seq<u8>, i: int)
    requires
        0 <= i,
    ensures
        number(data, 8 * i, 8) == data[i],
        number(data, 8 * i, 16) == 256 * data[i] + data[i + 1],
{
    bits::lemma_pow2_small();
    lemma_number_in_byte(data, i, 0, 8);
    lemma_number_in_byte(data, i + 1, 0, 8);
    assert(8 * i + 0 == 8 * i);
    assert(((8 - 0 - 8) as nat) == 0);
    assert(data[i] as int / 1 == data[i]);
    assert(data[i + 1] as int / 1 == data[i + 1]);
    lemma_number_split(data, 8 * i, 8);
    assert(8 * i + 8 == 8 * (i + 1) + 0);
}

/// Equal bits spell equal numbers.
proof fn lemma_number_of_bits(a: Seq<u8>, b: Seq<u8>, p: int, n: nat)
    requires
        forall|s: int| 0 <= s < n ==> left_bit(a, p + s) == #[trigger] left_bit(b, p + s),
    ensures
        number(a, p, n) == number(b, p, n),
    decreases n,
{
    if n > 0 {
        let m = n - 1;
        lemma_number_of_bits(a, b, p, m as nat);
        assert(left_bit(a, p + m) == left_bit(b, p + m));
    }
}

/// A byte is known by its bits.
pub proof fn lemma_byte_bits(a: Seq<u8>, b: Seq<u8>, i: int)
    requires
        0 <= i,
        forall|s: int| 0 <= s < 8 ==> left_bit(a, 8 * i + s) == #[trigger] left_bit(b, 8 * i + s),
    ensures
        a[i] == b[i],
{
    lemma_number_bytes(a, i);
    lemma_number_bytes(b, i);
    lemma_number_of_bits(a, b, 8 * i, 8);
}

/// The bits of a row are those of the image from where the row begins.
proof fn lemma_number_in_row(data: Seq<u8>, start: int, len: int, at: int, n: nat)
    requires
        0 <= start,
        0 <= len,
        start + len <= data.len(),
        0 <= at,
        at + n <= 8 * len,
    ensures
        number(data, 8 * start + at, n) == number(data.subrange(start, start + len), at, n),
    decreases n,
{
    if n > 0 {
        lemma_number_in_row(data, start, len, at, (n - 1) as nat);
        let k = at + n - 1;
        assert((8 * start + k) / 8 == start + k / 8);
        assert((8 * start + k) % 8 == k % 8);
        assert(data.subrange(start, start + len)[k / 8] == data[start + k / 8]);
        assert(8 * start + at + n - 1 == 8 * start + k);
    }
}

/// A few bits of a byte as shifts and masks take them.
pub proof fn lemma_slot_number(byte: u8, bits: u8, at: u8)
    requires
        bits == 1 || bits == 2 || bits == 4,
        at % bits == 0,
        at + bits <= 8,
    ensures
        file::slot(byte, bits, at) == (byte as int / pow2((8 - bits - at) as nat) as int) % (pow2(
            bits as nat,
        ) as int),
{
    bits::lemma_pow2_small();
    let shift = (8 - bits - at) as u8;
    let slot = file::slot(byte, bits, at);
    let unit = pow2(shift as nat);
    assert(slot == (byte >> shift) & (((1u8 << bits) - 1) as u8));
    if bits == 1 {
        assert({
            let slot = (byte >> shift) & (((1u8 << bits) - 1) as u8);
            &&& shift == 0 ==> slot == byte % 2
            &&& shift == 1 ==> slot == byte / 2 % 2
            &&& shift == 2 ==> slot == byte / 4 % 2
            &&& shift == 3 ==> slot == byte / 8 % 2
            &&& shift == 4 ==> slot == byte / 16 % 2
            &&& shift == 5 ==> slot == byte / 32 % 2
            &&& shift == 6 ==> slot == byte / 64 % 2
            &&& shift == 7 ==> slot == byte / 128 % 2
        }) by (bit_vector)
            requires
                bits == 1,
        ;
        assert(shift < 8);
        assert(pow2(bits as nat) == 2);
    } else if bits == 2 {
        assert({
            let slot = (byte >> shift) & (((1u8 << bits) - 1) as u8);
            &&& shift == 0 ==> slot == byte % 4
            &&& shift == 2 ==> slot == byte / 4 % 4
            &&& shift == 4 ==> slot == byte / 16 % 4
            &&& shift == 6 ==> slot == byte / 64 % 4
        }) by (bit_vector)
            requires
                bits == 2,
        ;
        assert(shift == 0 || shift == 2 || shift == 4 || shift == 6);
        assert(pow2(bits as nat) == 4);
    } else {
        assert({
            let slot = (byte >> shift) & (((1u8 << bits) - 1) as u8);
            &&& shift == 0 ==> slot == byte % 16
            &&& shift == 4 ==> slot == byte / 16 % 16
        }) by (bit_vector)
            requires
                bits == 4,
        ;
        assert(shift == 0 || shift == 4);
        assert(pow2(bits as nat) == 16);
    }
    assert(shift == 0 ==> unit == 1);
    assert(shift == 1 ==> unit == 2);
    assert(shift == 2 ==> unit == 4);
    assert(shift == 3 ==> unit == 8);
    assert(shift == 4 ==> unit == 16);
    assert(shift == 5 ==> unit == 32);
    assert(shift == 6 ==> unit == 64);
    assert(shift == 7 ==> unit == 128);
    assert(slot == byte as int / unit as int % (pow2(bits as nat) as int));
}

/// A sample is spelled by the bits of its row.
proof fn lemma_sample_bits(image: ImageView, x: int, y: int, c: int)
    requires
        inside(image, x, y),
        0 <= c < common::samples_of(image.info.color_type),
    ensures
        ({
            let depth = common::depth_bits(image.info.bit_depth) as int;
            let j = x * common::samples_of(image.info.color_type) + c;
            let row = file::row_at(image.data, y, image.info.row_bytes());
            &&& 0 <= j
            &&& sample(image, x, y, c) == number(row, j * depth, depth as nat)
        }),
{
    let info = image.info;
    let depth = common::depth_bits(info.bit_depth) as int;
    let count = common::samples_of(info.color_type);
    let r = info.row_bytes();
    let w = info.width as int;
    let j = x * count + c;
    interlace::lemma_row_place(y, info.height as int, r);
    assert(j >= 0 && (j + 1) * depth <= w * (count * depth) && j * depth >= 0 && (j + 1) * depth == j
        * depth + depth) by {
        lemma_mul_nonnegative(x, count);
        lemma_mul_is_distributive_add_other_way(count, x, 1);
        lemma_mul_inequality(x + 1, w, count);
        assert(j + 1 <= w * count);
        lemma_mul_inequality(j + 1, w * count, depth);
        lemma_mul_is_associative(w, count, depth);
        lemma_mul_nonnegative(j, depth);
        lemma_mul_is_distributive_add_other_way(depth, j, 1);
    }
    lemma_number_in_row(image.data, y * r, r, j * depth, depth as nat);
}

/// Two ways to say where a sample of whole bytes is.
proof fn lemma_sample_place(x: int, count: int, c: int, step: int)
    ensures
        x * (count * step) + c * step == (x * count + c) * step,
{
    lemma_mul_is_associative(x, count, step);
    lemma_mul_is_distributive_add_other_way(step, x * count, c);
}

/// A sample is what the conversion reads of it.
proof fn lemma_sample(image: ImageView, x: int, y: int, c: int)
    requires
        inside(image, x, y),
        0 <= c < common::samples_of(image.info.color_type),
    ensures
        ({
            let info = image.info;
            let depth = common::depth_bits(info.bit_depth) as int;
            let count = common::samples_of(info.color_type);
            let step = transform::sample_bytes(info.bit_depth);
            let row = file::row_at(image.data, y, info.row_bytes());
            let at = x * (count * step) + c * step;
            &&& count == 1 ==> sample(image, x, y, c) == transform::sample_of(row, x, depth)
            &&& depth >= 8 ==> sample(image, x, y, c) == transform::wide_sample(
                row,
                at,
                info.bit_depth,
            )
            &&& depth == 8 ==> sample(image, x, y, c) == row[at]
            &&& depth == 16 ==> sample(image, x, y, c) / 256 == row[at]
            &&& 0 <= sample(image, x, y, c) < pow2(depth as nat)
        }),
{
    let info = image.info;
    let depth = common::depth_bits(info.bit_depth) as int;
    let count = common::samples_of(info.color_type);
    let step = transform::sample_bytes(info.bit_depth);
    let row = file::row_at(image.data, y, info.row_bytes());
    let j = x * count + c;
    bits::lemma_pow2_small();
    lemma_sample_bits(image, x, y, c);
    lemma_sample_place(x, count, c, step);
    if count == 1 {
        lemma_mul_basics(x);
        assert(j == x);
    }
    if depth == 8 {
        lemma_number_bytes(row, j);
        lemma_mul_basics(j);
        assert(j * depth == 8 * j);
    } else if depth == 16 {
        lemma_number_bytes(row, 2 * j);
        assert(j * depth == 8 * (2 * j));
        assert(j * step == 2 * j);
    } else {
        lemma_small_sample(row, x, depth);
    }
}

/// A sample of a few bits.
proof fn lemma_small_sample(row: Seq<u8>, x: int, depth: int)
    requires
        depth == 1 || depth == 2 || depth == 4,
        0 <= x,
    ensures
        number(row, x * depth, depth as nat) == transform::sample_of(row, x, depth),
        0 <= number(row, x * depth, depth as nat) < pow2(depth as nat),
{
    let i = x * depth / 8;
    let a = x * depth % 8;
    lemma_mul_nonnegative(x, depth);
    assert(8 * i + a == x * depth);
    assert(a + depth <= 8 && a % depth == 0) by {
        if depth == 1 {
        } else if depth == 2 {
            assert(x * 2 % 8 == 2 * (x % 4)) by (nonlinear_arith);
        } else {
            assert(x * 4 % 8 == 4 * (x % 2)) by (nonlinear_arith);
        }
    }
    lemma_number_in_byte(row, i, a, depth as nat);
    lemma_slot_number(row[i], depth as u8, a as u8);
    lemma_pow2_pos(depth as nat);
    lemma_mod_bound(
        row[i] as int / pow2((8 - a - depth) as nat) as int,
        pow2(depth as nat) as int,
    );
    assert(transform::sample_of(row, x, depth) == file::slot(row[i], depth as u8, a as u8));
}

proof fn lemma_row_pixel(info: InfoView, row: Seq<u8>, n: nat, x: int, c: int)
    requires
        0 <= x < n,
        0 <= c < 4,
    ensures
        transform::row_pixels(info, row, 4, n).len() == 4 * n,
        transform::row_pixels(info, row, 4, n)[4 * x + c] == transform::rgba_of(info, row, x)[c],
    decreases n,
{
    let m = (n - 1) as nat;
    assert(transform::row_pixels(info, row, 4, 0).len() == 0);
    if x < m {
        lemma_row_pixel(info, row, m, x, c);
    } else if m > 0 {
        lemma_row_pixel(info, row, m, 0, 0);
    }
}

/// Where a pixel comes out.
proof fn lemma_image_pixel(info: InfoView, data: Seq<u8>, n: nat, x: int, y: int, c: int)
    requires
        0 <= x < info.width,
        0 <= y < n,
        0 <= c < 4,
    ensures
        transform::image_pixels(info, data, 4, n).len() == 4 * (n * info.width),
        transform::image_pixels(info, data, 4, n)[4 * (y * info.width + x) + c]
            == transform::rgba_of(info, file::row_at(data, y, info.row_bytes()), x)[c],
    decreases n,
{
    let w = info.width as nat;
    let m = (n - 1) as nat;
    let row = file::row_at(data, m as int, info.row_bytes());
    assert(n * w == m * w + w) by (nonlinear_arith)
        requires
            n == m + 1,
    ;
    assert(transform::image_pixels(info, data, 4, 0).len() == 0);
    if y < m {
        lemma_image_pixel(info, data, m, x, y, c);
        lemma_row_pixel(info, row, w, x, c);
        assert((y + 1) * w <= m * w) by (nonlinear_arith)
            requires
                y + 1 <= m,
                0 <= w,
        ;
        assert((y + 1) * w == y * w + w) by (nonlinear_arith);
        assert(y * w >= 0) by (nonlinear_arith)
            requires
                y >= 0,
                w >= 0,
        ;
    } else {
        if m > 0 {
            lemma_image_pixel(info, data, m, x, 0, c);
        } else {
            assert(m * w == 0) by (nonlinear_arith)
                requires
                    m == 0,
            ;
        }
        lemma_row_pixel(info, row, w, x, c);
        assert(y * w == m * w);
    }
    assert(transform::image_pixels(info, data, 4, n).len() == 4 * (m * w) + 4 * w);
    assert(n * info.width == n * w);
    assert(y * info.width == y * w);
}

/// The four bytes of a pixel are what the row that holds it says.
proof fn lemma_pixel(image: ImageView, x: int, y: int)
    requires
        inside(image, x, y),
        transform::converted(image, 4) is Ok,
    ensures
        ({
            let out = transform::converted(image, 4)->Ok_0;
            let k = place(image, x, y);
            let row = file::row_at(image.data, y, image.info.row_bytes());
            &&& 0 <= k
            &&& k + 4 <= out.len()
            &&& out.subrange(k, k + 4) == transform::rgba_of(image.info, row, x)
        }),
{
    let info = image.info;
    let out = transform::converted(image, 4)->Ok_0;
    let k = place(image, x, y);
    let row = file::row_at(image.data, y, info.row_bytes());
    let h = info.height as nat;
    let w = info.width as int;
    lemma_image_pixel(info, image.data, h, x, y, 0);
    lemma_image_pixel(info, image.data, h, x, y, 1);
    lemma_image_pixel(info, image.data, h, x, y, 2);
    lemma_image_pixel(info, image.data, h, x, y, 3);
    assert(y * w + x + 1 <= h * w && y * w + x >= 0) by (nonlinear_arith)
        requires
            0 <= y,
            y + 1 <= h,
            0 <= x,
            x + 1 <= w,
    ;
    assert(out.subrange(k, k + 4) =~= transform::rgba_of(info, row, x));
}

// ---------------------------------------------------------------------------------------
// Colours
// ---------------------------------------------------------------------------------------

/// A scaled grey level stands for its sample.
proof fn lemma_level(value: u16, depth: int)
    requires
        depth == 1 || depth == 2 || depth == 4 || depth == 8 || depth == 16,
        value < pow2(depth as nat),
    ensures
        stands_for(transform::scaled(value, depth), value as int, depth),
{
    bits::lemma_pow2_small();
    let byte = transform::scaled(value, depth);
    let most = pow2(depth as nat) - 1;
    if depth == 1 {
        assert(byte * most == byte) by (nonlinear_arith)
            requires
                most == 1,
        ;
    } else if depth == 2 {
        assert(byte * most == 3 * byte) by (nonlinear_arith)
            requires
                most == 3,
        ;
    } else if depth == 4 {
        assert(byte * most == 15 * byte) by (nonlinear_arith)
            requires
                most == 15,
        ;
    } else if depth == 8 {
        assert(byte * most == 255 * byte) by (nonlinear_arith)
            requires
                most == 255,
        ;
    }
}

/// The leading byte of a sample of eight or sixteen bits stands for it.
proof fn lemma_wide_level(byte: u8, value: int, depth: int)
    requires
        depth == 8 && byte == value || depth == 16 && byte == value / 256,
    ensures
        stands_for(byte, value, depth),
{
    bits::lemma_pow2_small();
    assert(byte * 255 == 255 * byte);
}

/// A grey pixel becomes three equal levels and an alpha: zero where its sample is the number
/// in `tRNS`, the most significant byte first, and 255 elsewhere.
pub proof fn law_grey_pixel(image: ImageView, x: int, y: int)
    requires
        inside(image, x, y),
        image.info.color_type is Grayscale,
    ensures
        transform::converted(image, 4) matches Ok(out) && {
            let k = place(image, x, y);
            let value = sample(image, x, y, 0);
            &&& stands_for(out[k], value, common::depth_bits(image.info.bit_depth) as int)
            &&& out[k + 1] == out[k]
            &&& out[k + 2] == out[k]
            &&& out[k + 3] == (match image.info.transparency {
                Some(key) => if key.len() >= 2 && value == 256 * key[0] + key[1] {
                    0u8
                } else {
                    255
                },
                None => 255,
            })
        },
{
    lemma_pixel(image, x, y);
    lemma_sample(image, x, y, 0);
    let out = transform::converted(image, 4)->Ok_0;
    let k = place(image, x, y);
    let four = out.subrange(k, k + 4);
    bits::lemma_pow2_small();
    lemma_level(sample(image, x, y, 0) as u16, common::depth_bits(image.info.bit_depth) as int);
    assert(four[0] == out[k] && four[1] == out[k + 1] && four[2] == out[k + 2] && four[3] == out[k
        + 3]);
}

/// A pixel of grey and alpha becomes three equal levels and that alpha.
pub proof fn law_grey_alpha_pixel(image: ImageView, x: int, y: int)
    requires
        inside(image, x, y),
        image.info.color_type is GrayscaleAlpha,
    ensures
        transform::converted(image, 4) matches Ok(out) && {
            let k = place(image, x, y);
            let depth = common::depth_bits(image.info.bit_depth) as int;
            &&& stands_for(out[k], sample(image, x, y, 0), depth)
            &&& out[k + 1] == out[k]
            &&& out[k + 2] == out[k]
            &&& stands_for(out[k + 3], sample(image, x, y, 1), depth)
        },
{
    lemma_pixel(image, x, y);
    lemma_sample(image, x, y, 0);
    lemma_sample(image, x, y, 1);
    let out = transform::converted(image, 4)->Ok_0;
    let k = place(image, x, y);
    let four = out.subrange(k, k + 4);
    let depth = common::depth_bits(image.info.bit_depth) as int;
    lemma_wide_level(four[0], sample(image, x, y, 0), depth);
    lemma_wide_level(four[3], sample(image, x, y, 1), depth);
    assert(four[0] == out[k] && four[1] == out[k + 1] && four[2] == out[k + 2] && four[3] == out[k
        + 3]);
}

/// A pixel of red, green and blue keeps them and gets an alpha: zero where its three samples
/// are the three numbers in `tRNS`, the most significant byte first, and 255 elsewhere.
pub proof fn law_rgb_pixel(image: ImageView, x: int, y: int)
    requires
        inside(image, x, y),
        image.info.color_type is Rgb,
    ensures
        transform::converted(image, 4) matches Ok(out) && {
            let k = place(image, x, y);
            let depth = common::depth_bits(image.info.bit_depth) as int;
            let red = sample(image, x, y, 0);
            let green = sample(image, x, y, 1);
            let blue = sample(image, x, y, 2);
            &&& stands_for(out[k], red, depth)
            &&& stands_for(out[k + 1], green, depth)
            &&& stands_for(out[k + 2], blue, depth)
            &&& out[k + 3] == (match image.info.transparency {
                Some(key) => if key.len() >= 6 && red == 256 * key[0] + key[1] && green == 256
                    * key[2] + key[3] && blue == 256 * key[4] + key[5] {
                    0u8
                } else {
                    255
                },
                None => 255,
            })
        },
{
    lemma_pixel(image, x, y);
    lemma_sample(image, x, y, 0);
    lemma_sample(image, x, y, 1);
    lemma_sample(image, x, y, 2);
    let out = transform::converted(image, 4)->Ok_0;
    let k = place(image, x, y);
    let four = out.subrange(k, k + 4);
    let depth = common::depth_bits(image.info.bit_depth) as int;
    lemma_wide_level(four[0], sample(image, x, y, 0), depth);
    lemma_wide_level(four[1], sample(image, x, y, 1), depth);
    lemma_wide_level(four[2], sample(image, x, y, 2), depth);
    assert(four[0] == out[k] && four[1] == out[k + 1] && four[2] == out[k + 2] && four[3] == out[k
        + 3]);
}

/// A pixel of red, green, blue and alpha keeps all four.
pub proof fn law_rgba_pixel(image: ImageView, x: int, y: int, c: int)
    requires
        inside(image, x, y),
        image.info.color_type is Rgba,
        0 <= c < 4,
    ensures
        transform::converted(image, 4) matches Ok(out) && stands_for(
            out[place(image, x, y) + c],
            sample(image, x, y, c),
            common::depth_bits(image.info.bit_depth) as int,
        ),
{
    lemma_pixel(image, x, y);
    lemma_sample(image, x, y, c);
    let out = transform::converted(image, 4)->Ok_0;
    let k = place(image, x, y);
    let four = out.subrange(k, k + 4);
    let depth = common::depth_bits(image.info.bit_depth) as int;
    let step = transform::sample_bytes(image.info.bit_depth);
    let row = file::row_at(image.data, y, image.info.row_bytes());
    let at = x * (4 * step);
    assert(four[c] == row[at + c * step]) by {
        if c == 0 {
            assert(four[0] == row[at]);
        } else if c == 1 {
            assert(four[1] == row[at + step]);
        } else if c == 2 {
            assert(four[2] == row[at + 2 * step]);
        } else {
            assert(four[3] == row[at + 3 * step]);
        }
    }
    lemma_wide_level(four[c], sample(image, x, y, c), depth);
    assert(four[c] == out[k + c]);
}

/// A pixel that names a palette entry becomes the three bytes of that entry and the byte that
/// `tRNS` has in its place, or 255 where `tRNS` is shorter or missing.
pub proof fn law_indexed_pixel(image: ImageView, x: int, y: int)
    requires
        inside(image, x, y),
        image.info.color_type is Indexed,
        transform::converted(image, 4) is Ok,
    ensures
        transform::converted(image, 4) matches Ok(out) && image.info.palette matches Some(palette)
            && {
            let k = place(image, x, y);
            let i = sample(image, x, y, 0);
            &&& 3 * i + 3 <= palette.len()
            &&& out[k] == palette[3 * i]
            &&& out[k + 1] == palette[3 * i + 1]
            &&& out[k + 2] == palette[3 * i + 2]
            &&& out[k + 3] == (match image.info.transparency {
                Some(alphas) => if i < alphas.len() {
                    alphas[i]
                } else {
                    255
                },
                None => 255,
            })
        },
{
    lemma_pixel(image, x, y);
    lemma_sample(image, x, y, 0);
    let out = transform::converted(image, 4)->Ok_0;
    let k = place(image, x, y);
    let four = out.subrange(k, k + 4);
    assert(four[0] == out[k] && four[1] == out[k + 1] && four[2] == out[k + 2] && four[3] == out[k
        + 3]);
    let row = file::row_at(image.data, y, image.info.row_bytes());
    assert(transform::entry_exists(image.info, row, x));
}

/// An indexed image is converted exactly if it has a palette, and the palette has an entry for
/// every sample.
pub proof fn law_indexed_image_converts(image: ImageView)
    requires
        image.info.color_type is Indexed,
        common::depth_allowed(image.info.color_type, image.info.bit_depth),
        image.info.output_size() <= image.data.len(),
    ensures
        transform::converted(image, 4) is Ok <==> (image.info.palette matches Some(palette)
            && forall|x: int, y: int|
            0 <= x < image.info.width && 0 <= y < image.info.height ==> 3 * #[trigger] sample(
                image,
                x,
                y,
                0,
            ) + 3 <= palette.len()),
{
    let info = image.info;
    if let Some(palette) = info.palette {
        assert forall|x: int, y: int| 0 <= x < info.width && 0 <= y < info.height implies (3
            * #[trigger] sample(image, x, y, 0) + 3 <= palette.len()) == transform::entry_exists(
            info,
            file::row_at(image.data, y, info.row_bytes()),
            x,
        ) by {
            lemma_sample(image, x, y, 0);
        }
        if transform::entries_exist(info, image.data) {
            assert forall|x: int, y: int| 0 <= x < info.width && 0 <= y < info.height implies 3
                * #[trigger] sample(image, x, y, 0) + 3 <= palette.len() by {
                assert(transform::entry_exists(
                    info,
                    file::row_at(image.data, y, info.row_bytes()),
                    x,
                ));
            }
        } else {
            let (x, y) = choose|x: int, y: int|
                0 <= x < info.width && 0 <= y < info.height && !(#[trigger] transform::entry_exists(
                    info,
                    file::row_at(image.data, y, info.row_bytes()),
                    x,
                ));
            assert(3 * sample(image, x, y, 0) + 3 > palette.len());
        }
    }
}

/// An image whose layout has no alpha and that has no `tRNS` is opaque: every fourth byte of
/// its conversion is 255.
pub proof fn law_plain_image_is_opaque(image: ImageView, x: int, y: int)
    requires
        inside(image, x, y),
        image.info.color_type is Grayscale || image.info.color_type is Rgb
            || image.info.color_type is Indexed,
        image.info.transparency is None,
    ensures
        transform::converted(image, 4) matches Ok(out) ==> out[place(image, x, y) + 3] == 255,
{
    if transform::converted(image, 4) is Ok {
        match image.info.color_type {
            ColorType::Grayscale => law_grey_pixel(image, x, y),
            ColorType::Rgb => law_rgb_pixel(image, x, y),
            _ => law_indexed_pixel(image, x, y),
        }
    }
}

/// An image can be other than opaque exactly if its pixels have an alpha sample or it has a
/// transparency.
pub proof fn law_has_alpha(info: InfoView)
    ensures
        info.has_alpha() <==> info.transparency is Some || common::color_byte(info.color_type) == 4
            || common::color_byte(info.color_type) == 6,
{
}

/// An image that cannot be other than opaque by its description is opaque.
pub proof fn law_image_without_alpha_is_opaque(image: ImageView, x: int, y: int)
    requires
        inside(image, x, y),
        !image.info.has_alpha(),
    ensures
        transform::converted(image, 4) matches Ok(out) ==> out[place(image, x, y) + 3] == 255,
{
    law_plain_image_is_opaque(image, x, y);
}

/// The pixels of a decoded image are covered by its palette exactly if the image is not
/// indexed, or the palette has an entry and every sample is the number of one. Without an
/// entry the palette is missing, and a sample beyond the last one is out of range.
pub proof fn law_palette_covers(image: ImageView)
    requires
        common::depth_allowed(image.info.color_type, image.info.bit_depth),
        image.info.output_size() <= image.data.len(),
    ensures
        file::palette_covers(image.info, image.data) == (if image.info.color_type !is Indexed {
            Ok::<(), Error>(())
        } else if image.info.palette is None || image.info.palette->0.len() < 3 {
            Err(Error::MissingPalette)
        } else if exists|x: int, y: int|
            0 <= x < image.info.width && 0 <= y < image.info.height && 3 * (#[trigger] sample(
                image,
                x,
                y,
                0,
            ) + 1) > image.info.palette->0.len() {
            Err(Error::PaletteIndexOutOfRange)
        } else {
            Ok(())
        }),
{
    let info = image.info;
    if info.color_type is Indexed && info.palette is Some {
        let palette = info.palette->0;
        let entries = (palette.len() / 3) as int;
        assert forall|x: int, y: int| 0 <= x < info.width && 0 <= y < info.height implies (
        #[trigger] file::index_at(info, image.data, x, y)) == sample(image, x, y, 0) by {
            lemma_sample(image, x, y, 0);
            let row = file::row_at(image.data, y, info.row_bytes());
            if info.bits() == 8 {
                interlace::lemma_cells(info.width as int, 8);
                interlace::lemma_row_place(y, info.height as int, info.row_bytes());
                interlace::lemma_byte_pixel(row, x);
            }
        }
        if exists|x: int, y: int|
            0 <= x < info.width && 0 <= y < info.height && 3 * (#[trigger] sample(image, x, y, 0)
                + 1) > palette.len() {
            let (x, y) = choose|x: int, y: int|
                0 <= x < info.width && 0 <= y < info.height && 3 * (#[trigger] sample(
                    image,
                    x,
                    y,
                    0,
                ) + 1) > palette.len();
            assert(file::index_at(info, image.data, x, y) >= entries);
        } else {
            assert forall|x: int, y: int| 0 <= x < info.width && 0 <= y < info.height implies (
            #[trigger] file::index_at(info, image.data, x, y)) < entries by {
                assert(3 * (sample(image, x, y, 0) + 1) <= palette.len());
            }
        }
    }
}

// ---------------------------------------------------------------------------------------
// Images in another layout
// ---------------------------------------------------------------------------------------

proof fn lemma_row_alike(a: InfoView, row_a: Seq<u8>, b: InfoView, row_b: Seq<u8>, n: nat)
    requires
        forall|x: int|
            0 <= x < n ==> #[trigger] transform::rgba_of(a, row_a, x) == transform::rgba_of(
                b,
                row_b,
                x,
            ),
    ensures
        transform::row_pixels(a, row_a, 4, n) == transform::row_pixels(b, row_b, 4, n),
    decreases n,
{
    if n > 0 {
        lemma_row_alike(a, row_a, b, row_b, (n - 1) as nat);
        assert(transform::rgba_of(a, row_a, n - 1) == transform::rgba_of(b, row_b, n - 1));
    }
}

/// Whether two images have the same colour at column `x` and row `y`.
spec fn alike(a: ImageView, b: ImageView, x: int, y: int) -> bool {
    transform::rgba_of(a.info, file::row_at(a.data, y, a.info.row_bytes()), x)
        == transform::rgba_of(b.info, file::row_at(b.data, y, b.info.row_bytes()), x)
}

proof fn lemma_image_alike(a: ImageView, b: ImageView, n: nat)
    requires
        a.info.width == b.info.width,
        forall|x: int, y: int| 0 <= x < a.info.width && 0 <= y < n ==> #[trigger] alike(a, b, x, y),
    ensures
        transform::image_pixels(a.info, a.data, 4, n) == transform::image_pixels(
            b.info,
            b.data,
            4,
            n,
        ),
    decreases n,
{
    if n > 0 {
        let y = n - 1;
        lemma_image_alike(a, b, y as nat);
        let row_a = file::row_at(a.data, y, a.info.row_bytes());
        let row_b = file::row_at(b.data, y, b.info.row_bytes());
        assert forall|x: int| 0 <= x < a.info.width implies #[trigger] transform::rgba_of(
            a.info,
            row_a,
            x,
        ) == transform::rgba_of(b.info, row_b, x) by {
            assert(alike(a, b, x, y));
        }
        lemma_row_alike(a.info, row_a, b.info, row_b, a.info.width as nat);
    }
}

/// A byte of a row whose pixels take `step` bytes each.
proof fn lemma_byte_place(data: Seq<u8>, w: int, h: int, step: int, x: int, y: int, c: int)
    requires
        1 <= step,
        0 <= x < w,
        0 <= y < h,
        0 <= c < step,
        data.len() >= h * (w * step),
    ensures
        file::row_at(data, y, w * step)[x * step + c] == data[step * (y * w + x) + c],
        0 <= x * step + c < w * step,
        0 <= step * (y * w + x) + c < h * (w * step),
{
    let r = w * step;
    assert(y * r + (x * step + c) == step * (y * w + x) + c) by (nonlinear_arith)
        requires
            r == w * step,
    ;
    assert((x + 1) * step <= r && (x + 1) * step == x * step + step && x * step >= 0)
        by (nonlinear_arith)
        requires
            r == w * step,
            0 <= x,
            x + 1 <= w,
            step >= 1,
    ;
    assert((y + 1) * r <= h * r && (y + 1) * r == y * r + r && y * r >= 0) by (nonlinear_arith)
        requires
            0 <= y,
            y + 1 <= h,
            r >= 0,
    ;
    assert(file::row_at(data, y, r)[x * step + c] == data[y * r + (x * step + c)]);
}

/// Bytes per row of the layouts that take whole bytes.
proof fn lemma_whole_rows(info: InfoView)
    requires
        info.bit_depth is Eight,
    ensures
        info.row_bytes() == info.width * common::samples_of(info.color_type),
        info.output_size() == info.height * (info.width * common::samples_of(info.color_type)),
{
    let n = common::samples_of(info.color_type);
    let w = info.width as int;
    assert(info.bits() == n * 8);
    assert(w * (n * 8) == 8 * (w * n)) by (nonlinear_arith);
    lemma_mul_is_commutative(info.row_bytes(), info.height as int);
}

proof fn lemma_grey_alike(image: ImageView, other: ImageView, x: int, y: int)
    requires
        inside(image, x, y),
        image.info.color_type is Grayscale || image.info.color_type is GrayscaleAlpha,
        image.info.bit_depth is Eight,
        image.info.transparency is None,
        image.data.len() == image.info.output_size(),
        corpus::normalised(image) == Ok::<ImageView, Error>(other),
    ensures
        alike(image, other, x, y),
{
    let w = image.info.width as int;
    let h = image.info.height as int;
    let n = common::samples_of(image.info.color_type);
    lemma_whole_rows(image.info);
    lemma_whole_rows(other.info);
    let k = y * w + x;
    assert(other.data.len() == h * (w * 4)) by {
        assert(h * (w * 4) == 4 * (h * w)) by (nonlinear_arith);
        assert(h * (w * 2) == 2 * (h * w)) by (nonlinear_arith);
        assert(h * (w * 1) == h * w) by (nonlinear_arith);
    }
    lemma_byte_place(image.data, w, h, n, x, y, 0);
    if n == 2 {
        lemma_byte_place(image.data, w, h, n, x, y, 1);
    }
    lemma_byte_place(other.data, w, h, 4, x, y, 0);
    lemma_byte_place(other.data, w, h, 4, x, y, 1);
    lemma_byte_place(other.data, w, h, 4, x, y, 2);
    lemma_byte_place(other.data, w, h, 4, x, y, 3);
    assert(k >= 0) by (nonlinear_arith)
        requires
            k == y * w + x,
            y >= 0,
            w >= 0,
            x >= 0,
    ;
    let row = file::row_at(image.data, y, image.info.row_bytes());
    let wide = file::row_at(other.data, y, other.info.row_bytes());
    assert((4 * k) / 4 == k && (4 * k + 1) / 4 == k && (4 * k + 2) / 4 == k && (4 * k + 3) / 4 == k);
    assert((4 * k + 3) % 4 == 3);
    assert(transform::rgba_of(image.info, row, x) =~= transform::rgba_of(other.info, wide, x));
}

proof fn lemma_indexed_alike(image: ImageView, other: ImageView, x: int, y: int)
    requires
        inside(image, x, y),
        image.info.color_type is Indexed,
        transform::converted(image, 4) is Ok,
        corpus::normalised(image) == Ok::<ImageView, Error>(other),
    ensures
        alike(image, other, x, y),
{
    let w = image.info.width as int;
    let h = image.info.height as int;
    let n = common::samples_of(other.info.color_type);
    let all = transform::converted(image, 4)->Ok_0;
    let k = y * w + x;
    lemma_pixel(image, x, y);
    lemma_whole_rows(other.info);
    laws::law_rgb_is_rgba_without_alpha(image);
    laws::law_conversion_length(image, 4);
    laws::law_conversion_length(image, 3);
    let row = file::row_at(image.data, y, image.info.row_bytes());
    let flat = file::row_at(other.data, y, other.info.row_bytes());
    let four = all.subrange(4 * k, 4 * k + 4);
    assert(four == transform::rgba_of(image.info, row, x));
    assert(four[0] == all[4 * k] && four[1] == all[4 * k + 1] && four[2] == all[4 * k + 2] && four[3]
        == all[4 * k + 3]);
    lemma_byte_place(other.data, w, h, n, x, y, 0);
    lemma_byte_place(other.data, w, h, n, x, y, 1);
    lemma_byte_place(other.data, w, h, n, x, y, 2);
    if n == 4 {
        lemma_byte_place(other.data, w, h, n, x, y, 3);
    } else {
        assert((3 * k) / 3 == k && (3 * k + 1) / 3 == k && (3 * k + 2) / 3 == k);
        assert((3 * k) % 3 == 0 && (3 * k + 1) % 3 == 1 && (3 * k + 2) % 3 == 2);
    }
    assert(transform::rgba_of(image.info, row, x) =~= transform::rgba_of(other.info, flat, x));
}

/// Putting an image in the layout that encoders are compared on keeps its colours. Width,
/// height and metadata stay, and neither palette nor transparency is left. A single grey level
/// or colour that is transparent would be lost, so images with one are left out.
pub proof fn law_normalising_keeps_colours(image: ImageView)
    requires
        common::depth_allowed(image.info.color_type, image.info.bit_depth),
        image.data.len() == image.info.output_size(),
        image.info.transparency is None || image.info.color_type is Indexed,
        transform::converted(image, 4) is Ok,
    ensures
        corpus::normalised(image) matches Ok(other) && {
            &&& transform::converted(other, 4) == transform::converted(image, 4)
            &&& other.info.width == image.info.width
            &&& other.info.height == image.info.height
            &&& other.info.metadata == image.info.metadata
            &&& other.info.palette is None
            &&& other.info.transparency is None
        },
{
    let info = image.info;
    laws::law_rgb_is_rgba_without_alpha(image);
    let other = corpus::normalised(image)->Ok_0;
    assert forall|x: int, y: int| 0 <= x < info.width && 0 <= y < info.height implies #[trigger] alike(
        image,
        other,
        x,
        y,
    ) by {
        if info.color_type is Indexed {
            lemma_indexed_alike(image, other, x, y);
        } else if info.bit_depth is Eight && (info.color_type is Grayscale
            || info.color_type is GrayscaleAlpha) {
            lemma_grey_alike(image, other, x, y);
        }
    }
    lemma_image_alike(image, other, info.height as nat);
}

} // verus!
