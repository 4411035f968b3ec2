//! Interlaced images: an image that was split into passes, filtered in whatever way, is put
//! together again.

use vstd::prelude::*;
use vstd::arithmetic::div_mod::*;
use vstd::arithmetic::mul::*;
use crate::colors;
use crate::common;
use crate::common::InfoView;
use crate::error::Error;
use crate::file;
use crate::filter;
use crate::filter::Filter;
use crate::interlace;

verus! {

// ---------------------------------------------------------------------------------------
// Splitting an image
// ---------------------------------------------------------------------------------------

/// The first column of each pass.
pub open spec fn first_column(pass: int) -> int {
    seq![0int, 4, 0, 2, 0, 1, 0][pass]
}

/// How far apart the columns of each pass are.
pub open spec fn column_step(pass: int) -> int {
    seq![8int, 8, 4, 4, 2, 2, 1][pass]
}

/// The first row of each pass.
pub open spec fn first_row(pass: int) -> int {
    seq![0int, 0, 4, 0, 2, 0, 1][pass]
}

/// How far apart the rows of each pass are.
pub open spec fn row_step(pass: int) -> int {
    seq![8int, 8, 8, 4, 4, 2, 2][pass]
}

/// How many positions below `length` a grid takes.
pub open spec fn count(length: int, first: int, step: int) -> int {
    if length <= first {
        0
    } else {
        (length - first + step - 1) / step
    }
}

/// The columns of a pass.
pub open spec fn across(info: InfoView, pass: int) -> int {
    count(info.width as int, first_column(pass), column_step(pass))
}

/// The rows of a pass.
pub open spec fn down(info: InfoView, pass: int) -> int {
    count(info.height as int, first_row(pass), row_step(pass))
}

/// Whether a pass has no pixels.
pub open spec fn nothing(info: InfoView, pass: int) -> bool {
    across(info, pass) == 0 || down(info, pass) == 0
}

/// Bytes of `pixels` pixels of `bits` bits each, side by side.
pub open spec fn bytes_for(pixels: int, bits: int) -> int {
    (pixels * bits + 7) / 8
}

/// Where the bits of the pixel at column `x` and row `y` of an image begin.
pub open spec fn pixel_start(info: InfoView, x: int, y: int) -> int {
    8 * (y * bytes_for(info.width as int, info.bits())) + x * info.bits()
}

/// Whether pixel `j` of row `i` of a pass is the pixel of the image at that place of the
/// pass's grid, bit by bit.
pub open spec fn taken_from(
    info: InfoView,
    image: Seq<u8>,
    row: Seq<u8>,
    pass: int,
    i: int,
    j: int,
) -> bool {
    let x = first_column(pass) + j * column_step(pass);
    let y = first_row(pass) + i * row_step(pass);
    forall|t: int|
        0 <= t < info.bits() ==> #[trigger] colors::left_bit(row, j * info.bits() + t)
            == colors::left_bit(image, pixel_start(info, x, y) + t)
}

/// Whether the rows are those of a pass over an image.
pub open spec fn sub_image(info: InfoView, image: Seq<u8>, rows: Seq<Seq<u8>>, pass: int) -> bool {
    &&& rows.len() == down(info, pass)
    &&& forall|i: int|
        0 <= i < rows.len() ==> (#[trigger] rows[i]).len() == bytes_for(
            across(info, pass),
            info.bits(),
        )
    &&& forall|i: int, j: int|
        0 <= i < rows.len() && 0 <= j < across(info, pass) ==> #[trigger] taken_from(
            info,
            image,
            rows[i],
            pass,
            i,
            j,
        )
}

/// Bytes from a byte to the one a pixel to its left, for the filters: the bytes of a pixel,
/// and one where it has fewer than eight bits.
pub open spec fn reach(bits: int) -> nat {
    if bits / 8 < 1 {
        1
    } else {
        (bits / 8) as nat
    }
}

/// The row above row `i`, within the pass. Above the first one are zeros.
pub open spec fn above(rows: Seq<Seq<u8>>, i: int) -> Seq<u8> {
    if i == 0 {
        Seq::new(rows[0].len(), |k: int| 0u8)
    } else {
        rows[i - 1]
    }
}

/// Row `i` with a filter applied, behind the byte of the filter.
pub open spec fn line(rows: Seq<Seq<u8>>, filters: Seq<Filter>, bits: int, i: int) -> Seq<u8> {
    seq![filter::filter_byte(filters[i])] + filter::filtered(
        filters[i],
        reach(bits),
        above(rows, i),
        rows[i],
    )
}

/// The first `n` rows of a pass, filtered.
pub open spec fn lines(rows: Seq<Seq<u8>>, filters: Seq<Filter>, bits: int, n: int) -> Seq<u8>
    decreases n,
{
    if n <= 0 {
        Seq::empty()
    } else {
        lines(rows, filters, bits, n - 1) + line(rows, filters, bits, n - 1)
    }
}

/// The first `n` passes one after the other. A pass without pixels takes no bytes.
pub open spec fn pass_data(
    info: InfoView,
    passes: Seq<Seq<Seq<u8>>>,
    filters: Seq<Seq<Filter>>,
    n: int,
) -> Seq<u8>
    decreases n,
{
    if n <= 0 {
        Seq::empty()
    } else if nothing(info, n - 1) {
        pass_data(info, passes, filters, n - 1)
    } else {
        pass_data(info, passes, filters, n - 1) + lines(
            passes[n - 1],
            filters[n - 1],
            info.bits(),
            down(info, n - 1),
        )
    }
}

/// Whether an image was split into seven passes, with a filter for every row.
pub open spec fn split(
    info: InfoView,
    image: Seq<u8>,
    passes: Seq<Seq<Seq<u8>>>,
    filters: Seq<Seq<Filter>>,
) -> bool {
    &&& passes.len() == 7
    &&& filters.len() == 7
    &&& forall|pass: int|
        0 <= pass < 7 && !nothing(info, pass) ==> #[trigger] sub_image(
            info,
            image,
            passes[pass],
            pass,
        ) && filters[pass].len() == down(info, pass)
}

/// Whether two images have the same pixels, bit by bit.
pub open spec fn same_pixels(info: InfoView, a: Seq<u8>, b: Seq<u8>) -> bool {
    forall|x: int, y: int, t: int|
        0 <= x < info.width && 0 <= y < info.height && 0 <= t < info.bits()
            ==> #[trigger] colors::left_bit(a, pixel_start(info, x, y) + t) == colors::left_bit(
            b,
            pixel_start(info, x, y) + t,
        )
}

/// Whether the bits behind the last pixel of every row are zero.
pub open spec fn padded(info: InfoView, image: Seq<u8>) -> bool {
    forall|y: int, t: int|
        0 <= y < info.height && info.width * info.bits() <= t < 8 * bytes_for(
            info.width as int,
            info.bits(),
        ) ==> #[trigger] colors::left_bit(image, pixel_start(info, 0, y) + t) == 0
}

// ---------------------------------------------------------------------------------------
// Filters
// ---------------------------------------------------------------------------------------

/// The first `n` rows one after the other.
spec fn stacked(rows: Seq<Seq<u8>>, n: int) -> Seq<u8>
    decreases n,
{
    if n <= 0 {
        Seq::empty()
    } else {
        stacked(rows, n - 1) + rows[n - 1]
    }
}

spec fn even(rows: Seq<Seq<u8>>, row_bytes: int) -> bool {
    0 <= row_bytes && forall|i: int| 0 <= i < rows.len() ==> (#[trigger] rows[i]).len() == row_bytes
}

proof fn lemma_stacked(rows: Seq<Seq<u8>>, row_bytes: int, n: int, i: int)
    requires
        even(rows, row_bytes),
        0 <= i < n <= rows.len(),
    ensures
        stacked(rows, n).len() == n * row_bytes,
        file::row_at(stacked(rows, n), i, row_bytes) == rows[i],
    decreases n,
{
    assert(n * row_bytes == (n - 1) * row_bytes + row_bytes) by (nonlinear_arith);
    assert((i + 1) * row_bytes == i * row_bytes + row_bytes) by (nonlinear_arith);
    assert(i * row_bytes >= 0) by (nonlinear_arith)
        requires
            i >= 0,
            row_bytes >= 0,
    ;
    assert(stacked(rows, 0).len() == 0);
    assert(rows[n - 1].len() == row_bytes);
    if n > 1 {
        lemma_stacked(rows, row_bytes, n - 1, if i < n - 1 {
            i
        } else {
            0
        });
    } else {
        assert(0 * row_bytes == 0);
    }
    if i < n - 1 {
        assert((i + 1) * row_bytes <= (n - 1) * row_bytes) by (nonlinear_arith)
            requires
                i + 1 <= n - 1,
                row_bytes >= 0,
        ;
        assert(file::row_at(stacked(rows, n), i, row_bytes) =~= file::row_at(
            stacked(rows, n - 1),
            i,
            row_bytes,
        ));
    } else {
        assert(file::row_at(stacked(rows, n), i, row_bytes) =~= rows[i]);
    }
}

/// Where a filtered row stands among the others.
proof fn lemma_line(
    rows: Seq<Seq<u8>>,
    filters: Seq<Filter>,
    bits: int,
    row_bytes: int,
    n: int,
    i: int,
)
    requires
        even(rows, row_bytes),
        0 <= i < n <= rows.len(),
    ensures
        lines(rows, filters, bits, n).len() == n * (1 + row_bytes),
        lines(rows, filters, bits, n).subrange(i * (1 + row_bytes), (i + 1) * (1 + row_bytes))
            == line(rows, filters, bits, i),
        line(rows, filters, bits, i).len() == 1 + row_bytes,
        0 <= i * (1 + row_bytes),
        (i + 1) * (1 + row_bytes) == i * (1 + row_bytes) + 1 + row_bytes,
        (i + 1) * (1 + row_bytes) <= n * (1 + row_bytes),
    decreases n,
{
    let per = 1 + row_bytes;
    assert(n * per == (n - 1) * per + per) by (nonlinear_arith);
    assert((i + 1) * per == i * per + per) by (nonlinear_arith);
    assert(i * per >= 0) by (nonlinear_arith)
        requires
            i >= 0,
            per >= 0,
    ;
    assert(lines(rows, filters, bits, 0).len() == 0);
    assert(rows[n - 1].len() == row_bytes);
    assert(rows[i].len() == row_bytes);
    if n > 1 {
        lemma_line(rows, filters, bits, row_bytes, n - 1, if i < n - 1 {
            i
        } else {
            0
        });
    } else {
        assert(0 * per == 0);
    }
    let all = lines(rows, filters, bits, n);
    if i < n - 1 {
        assert((i + 1) * per <= (n - 1) * per) by (nonlinear_arith)
            requires
                i + 1 <= n - 1,
                per >= 0,
        ;
        assert(all.subrange(i * per, (i + 1) * per) =~= lines(rows, filters, bits, n - 1).subrange(
            i * per,
            (i + 1) * per,
        ));
    } else {
        assert(all.subrange(i * per, (i + 1) * per) =~= line(rows, filters, bits, i));
    }
}

/// The filters of a pass are reversed.
proof fn lemma_lines_restored(
    rows: Seq<Seq<u8>>,
    filters: Seq<Filter>,
    bits: int,
    row_bytes: int,
    m: int,
    n: int,
)
    requires
        even(rows, row_bytes),
        row_bytes % (reach(bits) as int) == 0,
        0 <= m <= n <= rows.len(),
    ensures
        filter::unfiltered_rows(
            lines(rows, filters, bits, n),
            row_bytes as nat,
            reach(bits),
            m as nat,
        ) == Ok::<Seq<u8>, int>(stacked(rows, m)),
    decreases m,
{
    if m > 0 {
        let i = m - 1;
        let raw = lines(rows, filters, bits, n);
        lemma_lines_restored(rows, filters, bits, row_bytes, i, n);
        lemma_line(rows, filters, bits, row_bytes, n, i);
        let at = filter::record_at(row_bytes as nat, i);
        let here = line(rows, filters, bits, i);
        assert(at == i * (1 + row_bytes));
        assert(raw.subrange(at, at + 1 + row_bytes) == here);
        assert(raw[at] == here[0]);
        assert(raw.subrange(at + 1, at + 1 + row_bytes) =~= here.skip(1));
        assert(here.skip(1) =~= filter::filtered(
            filters[i],
            reach(bits),
            above(rows, i),
            rows[i],
        ));
        assert(rows[i].len() == row_bytes);
        assert(rows[0].len() == row_bytes);
        if i > 0 {
            assert(rows[i - 1].len() == row_bytes);
            lemma_stacked(rows, row_bytes, i, i - 1);
        }
        assert(filter::row_above(stacked(rows, i), row_bytes as nat, i) =~= above(rows, i));
        filter::law_filter_round_trip(filters[i], reach(bits), above(rows, i), rows[i]);
        assert(filter::filter_of(here[0]) == Some(filters[i]));
    }
}

// ---------------------------------------------------------------------------------------
// Passes
// ---------------------------------------------------------------------------------------

/// The grids are those that the decoder goes by.
proof fn lemma_grid(info: InfoView, pass: int)
    requires
        0 <= pass < 7,
        info.width > 0,
        info.height > 0,
    ensures
        first_column(pass) == common::ADAM7_PASSES[pass].0,
        first_row(pass) == common::ADAM7_PASSES[pass].1,
        column_step(pass) == common::ADAM7_PASSES[pass].2,
        row_step(pass) == common::ADAM7_PASSES[pass].3,
        across(info, pass) == common::pass_width(pass, info.width as int),
        down(info, pass) == common::pass_height(pass, info.height as int),
        across(info, pass) >= 0,
        down(info, pass) >= 0,
        nothing(info, pass) <==> common::pass_len(
            info.width as int,
            info.height as int,
            info.bits(),
            pass,
        ) == 0,
        !nothing(info, pass) ==> common::pass_len(
            info.width as int,
            info.height as int,
            info.bits(),
            pass,
        ) == down(info, pass) * (1 + bytes_for(across(info, pass), info.bits())),
        !nothing(info, pass) ==> 0 <= bytes_for(across(info, pass), info.bits()),
{
    common::lemma_pass(pass, info.width as int, info.height as int);
    common::lemma_bits(info);
    if pass == 0 {
    } else if pass == 1 {
    } else if pass == 2 {
    } else if pass == 3 {
    } else if pass == 4 {
    } else if pass == 5 {
    } else {
    }
    let a = across(info, pass);
    let d = down(info, pass);
    let r = bytes_for(a, info.bits());
    if !nothing(info, pass) {
        assert(a * info.bits() >= 0) by (nonlinear_arith)
            requires
                a >= 0,
                info.bits() >= 1,
        ;
        assert((1 + r) * d == d * (1 + r)) by (nonlinear_arith);
        assert(d * (1 + r) > 0) by (nonlinear_arith)
            requires
                d > 0,
                r >= 0,
        ;
    }
}

/// A pass has a column for every place of its grid inside the image, and a row likewise.
pub proof fn law_pass_size(pass: int, length: int, i: int)
    requires
        0 <= pass < 7,
        0 <= length,
        0 <= i,
    ensures
        i < common::pass_width(pass, length) <==> first_column(pass) + i * column_step(pass)
            < length,
        i < common::pass_height(pass, length) <==> first_row(pass) + i * row_step(pass) < length,
{
    if pass == 0 {
        assert(i * column_step(pass) == i * 8 && i * row_step(pass) == i * 8);
    } else if pass == 1 {
        assert(i * column_step(pass) == i * 8 && i * row_step(pass) == i * 8);
    } else if pass == 2 {
        assert(i * column_step(pass) == i * 4 && i * row_step(pass) == i * 8);
    } else if pass == 3 {
        assert(i * column_step(pass) == i * 4 && i * row_step(pass) == i * 4);
    } else if pass == 4 {
        assert(i * column_step(pass) == i * 2 && i * row_step(pass) == i * 4);
    } else if pass == 5 {
        assert(i * column_step(pass) == i * 2 && i * row_step(pass) == i * 2);
    } else {
        assert(i * column_step(pass) == i * 1 && i * row_step(pass) == i * 2);
    }
}

proof fn lemma_pass_data(
    info: InfoView,
    image: Seq<u8>,
    passes: Seq<Seq<Seq<u8>>>,
    filters: Seq<Seq<Filter>>,
    n: int,
)
    requires
        info.width > 0,
        info.height > 0,
        split(info, image, passes, filters),
        0 <= n <= 7,
    ensures
        pass_data(info, passes, filters, n).len() == common::passes_len(
            info.width as int,
            info.height as int,
            info.bits(),
            n,
        ),
    decreases n,
{
    if n > 0 {
        let k = n - 1;
        lemma_pass_data(info, image, passes, filters, k);
        lemma_grid(info, k);
        if !nothing(info, k) {
            assert(sub_image(info, image, passes[k], k));
            lemma_line(
                passes[k],
                filters[k],
                info.bits(),
                bytes_for(across(info, k), info.bits()),
                down(info, k),
                0,
            );
        }
    }
}

/// A pass stands where the decoder looks for it.
proof fn lemma_pass_found(
    info: InfoView,
    image: Seq<u8>,
    passes: Seq<Seq<Seq<u8>>>,
    filters: Seq<Seq<Filter>>,
    k: int,
    n: int,
)
    requires
        info.width > 0,
        info.height > 0,
        split(info, image, passes, filters),
        0 <= k < n <= 7,
        !nothing(info, k),
    ensures
        ({
            let at = common::passes_len(info.width as int, info.height as int, info.bits(), k);
            let length = common::pass_len(info.width as int, info.height as int, info.bits(), k);
            &&& 0 <= at
            &&& at + length <= pass_data(info, passes, filters, n).len()
            &&& pass_data(info, passes, filters, n).subrange(at, at + length) == lines(
                passes[k],
                filters[k],
                info.bits(),
                down(info, k),
            )
        }),
    decreases n,
{
    let w = info.width as int;
    let h = info.height as int;
    let b = info.bits();
    let at = common::passes_len(w, h, b, k);
    let length = common::pass_len(w, h, b, k);
    let all = pass_data(info, passes, filters, n);
    let rest = pass_data(info, passes, filters, n - 1);
    lemma_pass_data(info, image, passes, filters, n - 1);
    lemma_pass_data(info, image, passes, filters, n);
    lemma_pass_data(info, image, passes, filters, k);
    if k < n - 1 {
        lemma_pass_found(info, image, passes, filters, k, n - 1);
        assert(all.subrange(at, at + length) =~= rest.subrange(at, at + length));
    } else {
        let here = lines(passes[k], filters[k], b, down(info, k));
        assert(all.subrange(at, at + length) =~= here);
    }
}

/// The rows of every pass one after the other.
spec fn images(info: InfoView, passes: Seq<Seq<Seq<u8>>>, n: nat) -> Seq<Seq<u8>> {
    Seq::new(
        n,
        |k: int|
            if nothing(info, k) {
                Seq::<u8>::empty()
            } else {
                stacked(passes[k], down(info, k))
            },
    )
}

/// Rows of a pass are made of whole pixels, or of bytes.
proof fn lemma_whole_pixels(info: InfoView, pixels: int)
    requires
        common::depth_allowed(info.color_type, info.bit_depth),
        0 <= pixels,
    ensures
        bytes_for(pixels, info.bits()) % (reach(info.bits()) as int) == 0,
        reach(info.bits()) == info.stride(),
        info.bits() >= 8 ==> bytes_for(pixels, info.bits()) == pixels * (info.bits() / 8),
{
    common::lemma_bits(info);
    if info.bits() >= 8 {
        interlace::lemma_cells(pixels, info.bits());
        lemma_mod_multiples_basic(pixels, info.stride());
    }
}

proof fn lemma_passes_restored(
    info: InfoView,
    image: Seq<u8>,
    passes: Seq<Seq<Seq<u8>>>,
    filters: Seq<Seq<Filter>>,
    n: int,
)
    requires
        info.checked() is Ok,
        split(info, image, passes, filters),
        0 <= n <= 7,
    ensures
        file::unfiltered_passes(info, pass_data(info, passes, filters, 7), n) == Ok::<
            Seq<Seq<u8>>,
            int,
        >(images(info, passes, n as nat)),
    decreases n,
{
    if n == 0 {
        assert(images(info, passes, 0) =~= Seq::empty());
    } else {
        let k = n - 1;
        lemma_passes_restored(info, image, passes, filters, k);
        lemma_grid(info, k);
        if !nothing(info, k) {
            assert(sub_image(info, image, passes[k], k));
            lemma_pass_found(info, image, passes, filters, k, 7);
            lemma_whole_pixels(info, across(info, k));
            lemma_lines_restored(
                passes[k],
                filters[k],
                info.bits(),
                bytes_for(across(info, k), info.bits()),
                down(info, k),
                down(info, k),
            );
        }
        assert(images(info, passes, k as nat).push(images(info, passes, n as nat)[k]) =~= images(
            info,
            passes,
            n as nat,
        ));
    }
}

// ---------------------------------------------------------------------------------------
// Pixels
// ---------------------------------------------------------------------------------------

/// A pixel of the image comes from the row of the pass whose grid it lies on.
proof fn lemma_source(
    info: InfoView,
    image: Seq<u8>,
    passes: Seq<Seq<Seq<u8>>>,
    filters: Seq<Seq<Filter>>,
    x: int,
    y: int,
) -> (at: (int, int, int))
    requires
        info.checked() is Ok,
        split(info, image, passes, filters),
        0 <= x < info.width,
        0 <= y < info.height,
    ensures
        ({
            let (k, i, j) = at;
            &&& 0 <= k < 7
            &&& !nothing(info, k)
            &&& 0 <= i < down(info, k)
            &&& 0 <= j < across(info, k)
            &&& passes[k].len() == down(info, k)
            &&& passes[k][i].len() == bytes_for(across(info, k), info.bits())
            &&& x == first_column(k) + j * column_step(k)
            &&& y == first_row(k) + i * row_step(k)
            &&& taken_from(info, image, passes[k][i], k, i, j)
            &&& file::source_pixel(info, images(info, passes, 7), x, y) == file::pixel_at(
                passes[k][i],
                j,
                info.bits(),
            )
        }),
{
    let k = file::pass_of(x, y);
    interlace::law_passes_cover(x, y, 0);
    interlace::law_passes_cover(x, y, k);
    interlace::lemma_grids(k);
    lemma_grid(info, k);
    let i = (y - first_row(k)) / row_step(k);
    let j = (x - first_column(k)) / column_step(k);
    interlace::lemma_taken(x, first_column(k), column_step(k), info.width as int);
    interlace::lemma_taken(y, first_row(k), row_step(k), info.height as int);
    lemma_fundamental_div_mod(x - first_column(k), column_step(k));
    lemma_fundamental_div_mod(y - first_row(k), row_step(k));
    lemma_mul_is_commutative(j, column_step(k));
    lemma_mul_is_commutative(i, row_step(k));
    assert(sub_image(info, image, passes[k], k));
    assert(taken_from(info, image, passes[k][i], k, i, j));
    lemma_stacked(
        passes[k],
        bytes_for(across(info, k), info.bits()),
        down(info, k),
        i,
    );
    (k, i, j)
}

/// Equal numbers are spelled by equal bits.
proof fn lemma_same_bits(a: Seq<u8>, p: int, b: Seq<u8>, q: int, n: nat, t: int)
    requires
        colors::number(a, p, n) == colors::number(b, q, n),
        0 <= t < n,
    ensures
        colors::left_bit(a, p + t) == colors::left_bit(b, q + t),
    decreases n,
{
    let m = (n - 1) as nat;
    lemma_bit_range(a, p + n - 1);
    lemma_bit_range(b, q + n - 1);
    if t < m {
        lemma_same_bits(a, p, b, q, m, t);
    }
}

proof fn lemma_bit_range(data: Seq<u8>, i: int)
    ensures
        0 <= colors::left_bit(data, i) < 2,
{
}

/// A bit of a pixel that takes whole bytes, in the image that was put together.
proof fn lemma_wide_bit(
    info: InfoView,
    parts: Seq<Seq<u8>>,
    row: Seq<u8>,
    x: int,
    y: int,
    j: int,
    t: int,
)
    requires
        info.checked() is Ok,
        info.bits() >= 8,
        0 <= x < info.width,
        0 <= y < info.height,
        0 <= t < info.bits(),
        0 <= j,
        (j + 1) * (info.bits() / 8) <= row.len(),
        file::source_pixel(info, parts, x, y) == file::pixel_at(row, j, info.bits()),
    ensures
        colors::left_bit(file::woven(info, parts), pixel_start(info, x, y) + t)
            == colors::left_bit(row, j * info.bits() + t),
{
    common::lemma_bits(info);
    common::lemma_sizes(info);
    let r = info.row_bytes();
    let pixel = info.bits() / 8;
    let b = t / 8;
    lemma_whole_pixels(info, info.width as int);
    interlace::lemma_row_place(y, info.height as int, r);
    assert(x * info.bits() == 8 * (x * pixel)) by (nonlinear_arith)
        requires
            info.bits() == 8 * pixel,
    ;
    assert(j * info.bits() == 8 * (j * pixel)) by (nonlinear_arith)
        requires
            info.bits() == 8 * pixel,
    ;
    assert((x + 1) * pixel <= info.width * pixel && (x + 1) * pixel == x * pixel + pixel && x * pixel
        >= 0) by (nonlinear_arith)
        requires
            0 <= x,
            x + 1 <= info.width,
            pixel >= 1,
    ;
    assert((j + 1) * pixel == j * pixel + pixel && j * pixel >= 0) by (nonlinear_arith)
        requires
            0 <= j,
            pixel >= 1,
    ;
    let i = y * r + x * pixel + b;
    let c = x * pixel + b;
    assert((pixel_start(info, x, y) + t) / 8 == i && (pixel_start(info, x, y) + t) % 8 == t % 8);
    assert((j * info.bits() + t) / 8 == j * pixel + b && (j * info.bits() + t) % 8 == t % 8);
    assert(i / r == y && i % r == c) by {
        lemma_fundamental_div_mod_converse(i, r, y, c);
    }
    assert(c / pixel == x && c % pixel == b) by {
        lemma_fundamental_div_mod_converse(c, pixel, x, b);
    }
    assert(file::woven(info, parts)[i] == file::woven_byte(info, parts, i));
    assert(file::pixel_at(row, j, info.bits())[b] == row[j * pixel + b]);
}

/// A bit of a pixel that shares a byte with others, in the image that was put together.
proof fn lemma_packed_bit(
    info: InfoView,
    image: Seq<u8>,
    passes: Seq<Seq<Seq<u8>>>,
    filters: Seq<Seq<Filter>>,
    x: int,
    y: int,
    t: int,
)
    requires
        info.checked() is Ok,
        info.bits() < 8,
        split(info, image, passes, filters),
        0 <= x < info.width,
        0 <= y < info.height,
        0 <= t < info.bits(),
    ensures
        colors::left_bit(file::woven(info, images(info, passes, 7)), pixel_start(info, x, y) + t)
            == colors::left_bit(image, pixel_start(info, x, y) + t),
{
    common::lemma_bits(info);
    common::lemma_sizes(info);
    let b = info.bits();
    let r = info.row_bytes();
    let per = 8int / b;
    let parts = images(info, passes, 7);
    let out = file::woven(info, parts);
    let (k, i, j) = lemma_source(info, image, passes, filters, x, y);
    let row = passes[k][i];
    interlace::lemma_cells(info.width as int, b);
    interlace::lemma_cell(x, b, r);
    interlace::lemma_cells(across(info, k), b);
    interlace::lemma_cell(j, b, row.len() as int);
    interlace::lemma_row_place(y, info.height as int, r);
    let c = x / per;
    let at = y * r + c;
    let first = c * per;
    lemma_fundamental_div_mod(x, per);
    lemma_mul_is_commutative(per, c);
    assert(at / r == y && at % r == c) by {
        lemma_fundamental_div_mod_converse(at, r, y, c);
    }
    assert(out[at] == file::packed_byte(info, parts, first, y, per as nat));
    assert forall|u: int| first <= u < first + per && u < info.width implies (
    #[trigger] file::source_pixel(info, parts, u, y))[0] < (1u8 << (b as u8)) by {
        lemma_packed_source(info, image, passes, filters, u, y);
    }
    let place = (x * b % 8) as u8;
    assert(place as int == x % per * b);
    assert(place % (b as u8) == 0);
    interlace::lemma_packed_byte(info, parts, first, y, per as nat, place);
    assert(first + place / (b as u8) == x) by {
        assert(x % per * b / b == x % per) by {
            lemma_div_by_multiple(x % per, b);
        }
    }
    let from = (j * b % 8) as u8;
    assert(file::slot(out[at], b as u8, place) == file::slot(row[j * b / 8], b as u8, from));
    colors::lemma_slot_number(out[at], b as u8, place);
    colors::lemma_slot_number(row[j * b / 8], b as u8, from);
    colors::lemma_number_in_byte(out, at, place as int, b as nat);
    colors::lemma_number_in_byte(row, j * b / 8, from as int, b as nat);
    assert(8 * at + place == pixel_start(info, x, y));
    assert(8 * (j * b / 8) + from == j * b);
    lemma_same_bits(out, pixel_start(info, x, y), row, j * b, b as nat, t);
}

/// A packed sample that comes from a pass fits its bits.
proof fn lemma_packed_source(
    info: InfoView,
    image: Seq<u8>,
    passes: Seq<Seq<Seq<u8>>>,
    filters: Seq<Seq<Filter>>,
    x: int,
    y: int,
)
    requires
        info.checked() is Ok,
        info.bits() < 8,
        split(info, image, passes, filters),
        0 <= x < info.width,
        0 <= y < info.height,
    ensures
        file::source_pixel(info, images(info, passes, 7), x, y)[0] < (1u8 << (info.bits() as u8)),
{
    common::lemma_bits(info);
    let b = info.bits();
    let (k, i, j) = lemma_source(info, image, passes, filters, x, y);
    let row = passes[k][i];
    interlace::lemma_cells(across(info, k), b);
    interlace::lemma_cell(j, b, row.len() as int);
    let from = (j * b % 8) as u8;
    assert(from % (b as u8) == 0);
    interlace::lemma_slot_range(row[j * b / 8], b as u8, from);
}

/// Where a bit behind the last pixel of a row would be in a pixel.
proof fn lemma_behind_last(w: int, b: int, r: int, t: int)
    requires
        b == 1 || b == 2 || b == 4,
        0 <= w,
        w * b <= t < 8 * r,
    ensures
        w <= t / b < interlace::cells(r, b),
        t == b * (t / b) + t % b,
        0 <= t % b < b,
{
    if b == 1 {
        assert(8int / b == 8);
        assert(w * b == w);
    } else if b == 2 {
        assert(8int / b == 4);
        assert(w * b == w * 2);
    } else {
        assert(8int / b == 2);
        assert(w * b == w * 4);
    }
}

/// Bits behind the last pixel of a row are zero in the image that was put together.
proof fn lemma_padding_bit(
    info: InfoView,
    image: Seq<u8>,
    passes: Seq<Seq<Seq<u8>>>,
    filters: Seq<Seq<Filter>>,
    y: int,
    t: int,
)
    requires
        info.checked() is Ok,
        split(info, image, passes, filters),
        0 <= y < info.height,
        info.width * info.bits() <= t < 8 * info.row_bytes(),
    ensures
        colors::left_bit(file::woven(info, images(info, passes, 7)), pixel_start(info, 0, y) + t)
            == 0,
{
    common::lemma_bits(info);
    common::lemma_sizes(info);
    let b = info.bits();
    let r = info.row_bytes();
    let w = info.width as int;
    if b >= 8 {
        lemma_whole_pixels(info, w);
        assert(w * b == 8 * (w * (b / 8))) by (nonlinear_arith)
            requires
                b == 8 * (b / 8),
        ;
    } else {
        let per = 8int / b;
        let parts = images(info, passes, 7);
        let out = file::woven(info, parts);
        let x = t / b;
        let u = t % b;
        lemma_behind_last(w, b, r, t);
        interlace::lemma_cell(x, b, r);
        interlace::lemma_row_place(y, info.height as int, r);
        let c = x / per;
        let at = y * r + c;
        let first = c * per;
        lemma_fundamental_div_mod(x, per);
        lemma_mul_is_commutative(per, c);
        lemma_mul_is_commutative(x, b);
        assert(at / r == y && at % r == c) by {
            lemma_fundamental_div_mod_converse(at, r, y, c);
        }
        assert(out[at] == file::packed_byte(info, parts, first, y, per as nat));
        assert forall|v: int| first <= v < first + per && v < info.width implies (
        #[trigger] file::source_pixel(info, parts, v, y))[0] < (1u8 << (b as u8)) by {
            lemma_packed_source(info, image, passes, filters, v, y);
        }
        let place = (x * b % 8) as u8;
        interlace::lemma_packed_byte(info, parts, first, y, per as nat, place);
        assert(first + place / (b as u8) == x) by {
            assert(x % per * b / b == x % per) by {
                lemma_div_by_multiple(x % per, b);
            }
        }
        colors::lemma_slot_number(out[at], b as u8, place);
        colors::lemma_number_in_byte(out, at, place as int, b as nat);
        assert(8 * at + place == pixel_start(info, x, y));
        lemma_zero_bits(out, pixel_start(info, x, y), b as nat, u);
        assert(0 * b == 0);
        assert(pixel_start(info, 0, y) + t == pixel_start(info, x, y) + u);
    }
}

proof fn lemma_zero_bits(a: Seq<u8>, p: int, n: nat, t: int)
    requires
        colors::number(a, p, n) == 0,
        0 <= t < n,
    ensures
        colors::left_bit(a, p + t) == 0,
    decreases n,
{
    let m = (n - 1) as nat;
    lemma_bit_range(a, p + n - 1);
    lemma_number_sign(a, p, m);
    if t < m {
        lemma_zero_bits(a, p, m, t);
    }
}

proof fn lemma_number_sign(a: Seq<u8>, p: int, n: nat)
    ensures
        colors::number(a, p, n) >= 0,
    decreases n,
{
    if n > 0 {
        lemma_number_sign(a, p, (n - 1) as nat);
        lemma_bit_range(a, p + n - 1);
    }
}

/// Images that have the same pixels, and the same bits behind them, are the same.
proof fn lemma_same_bytes(info: InfoView, a: Seq<u8>, b: Seq<u8>)
    requires
        info.checked() is Ok,
        a.len() == info.output_size(),
        b.len() == info.output_size(),
        same_pixels(info, a, b),
        padded(info, a),
        padded(info, b),
    ensures
        a == b,
{
    common::lemma_bits(info);
    common::lemma_sizes(info);
    let r = info.row_bytes();
    let w = info.width as int;
    let bits = info.bits();
    assert forall|i: int| 0 <= i < a.len() implies a[i] == b[i] by {
        let y = i / r;
        let c = i % r;
        lemma_fundamental_div_mod(i, r);
        lemma_div_pos_is_pos(i, r);
        lemma_multiply_divide_lt(i, r, info.height as int);
        lemma_mul_is_commutative(r, y);
        assert(0 * bits == 0);
        assert forall|s: int| 0 <= s < 8 implies colors::left_bit(a, 8 * i + s)
            == #[trigger] colors::left_bit(b, 8 * i + s) by {
            let t = 8 * c + s;
            assert(pixel_start(info, 0, y) + t == 8 * i + s);
            if t < w * bits {
                let x = t / bits;
                let u = t % bits;
                lemma_fundamental_div_mod(t, bits);
                lemma_div_pos_is_pos(t, bits);
                lemma_mul_is_commutative(bits, x);
                lemma_mul_is_commutative(w, bits);
                lemma_multiply_divide_lt(t, bits, w);
                assert(pixel_start(info, x, y) + u == 8 * i + s);
                assert(colors::left_bit(a, pixel_start(info, x, y) + u) == colors::left_bit(
                    b,
                    pixel_start(info, x, y) + u,
                ));
            } else {
                assert(colors::left_bit(a, pixel_start(info, 0, y) + t) == 0);
                assert(colors::left_bit(b, pixel_start(info, 0, y) + t) == 0);
            }
        }
        colors::lemma_byte_bits(a, b, i);
    }
    assert(a =~= b);
}

/// An interlaced image reads back. Split it into the seven passes, apply whatever filter to
/// each row, with the row above it taken within its pass and the left neighbour a whole pixel
/// away, and put the passes one after the other: what is read from that are the pixels of
/// the image, with zeros in the bits behind the last pixel of a row, so that an image which
/// has zeros there comes back byte for byte. The data has the size that the description asks
/// for.
pub proof fn law_interlaced_image_reads_back(
    info: InfoView,
    image: Seq<u8>,
    passes: Seq<Seq<Seq<u8>>>,
    filters: Seq<Seq<Filter>>,
)
    requires
        info.checked() is Ok,
        info.interlacing is Adam7,
        image.len() == info.output_size(),
        split(info, image, passes, filters),
    ensures
        pass_data(info, passes, filters, 7).len() == info.decompressed_size(),
        file::pixels(info, pass_data(info, passes, filters, 7)) matches Ok(read) && read.len()
            == image.len() && same_pixels(info, read, image) && padded(info, read) && (padded(
            info,
            image,
        ) ==> read == image),
{
    let parts = images(info, passes, 7);
    let read = file::woven(info, parts);
    common::lemma_sizes(info);
    common::lemma_bits(info);
    lemma_pass_data(info, image, passes, filters, 7);
    lemma_passes_restored(info, image, passes, filters, 7);
    assert forall|x: int, y: int, t: int|
        0 <= x < info.width && 0 <= y < info.height && 0 <= t < info.bits() implies (
    #[trigger] colors::left_bit(read, pixel_start(info, x, y) + t)) == colors::left_bit(
        image,
        pixel_start(info, x, y) + t,
    ) by {
        if info.bits() < 8 {
            lemma_packed_bit(info, image, passes, filters, x, y, t);
        } else {
            let (k, i, j) = lemma_source(info, image, passes, filters, x, y);
            let row = passes[k][i];
            lemma_whole_pixels(info, across(info, k));
            let pixel = info.bits() / 8;
            assert((j + 1) * pixel <= across(info, k) * pixel) by (nonlinear_arith)
                requires
                    j + 1 <= across(info, k),
                    pixel >= 1,
            ;
            lemma_wide_bit(info, parts, row, x, y, j, t);
            assert(colors::left_bit(row, j * info.bits() + t) == colors::left_bit(
                image,
                pixel_start(info, x, y) + t,
            ));
        }
    }
    assert forall|y: int, t: int|
        0 <= y < info.height && info.width * info.bits() <= t < 8 * bytes_for(
            info.width as int,
            info.bits(),
        ) implies #[trigger] colors::left_bit(read, pixel_start(info, 0, y) + t) == 0 by {
        lemma_padding_bit(info, image, passes, filters, y, t);
    }
    if padded(info, image) {
        lemma_same_bytes(info, read, image);
    }
}

// ---------------------------------------------------------------------------------------
// Bytes that name no filter
// ---------------------------------------------------------------------------------------

/// Whether the byte in front of row `i` names a filter.
pub open spec fn named(raw: Seq<u8>, row_bytes: int, i: int) -> bool {
    raw[i * (row_bytes + 1)] <= 4
}

proof fn lemma_named_rows(raw: Seq<u8>, row_bytes: nat, bpp: nat, n: nat)
    requires
        forall|i: int| 0 <= i < n ==> #[trigger] named(raw, row_bytes as int, i),
    ensures
        filter::unfiltered_rows(raw, row_bytes, bpp, n) is Ok,
    decreases n,
{
    if n > 0 {
        lemma_named_rows(raw, row_bytes, bpp, (n - 1) as nat);
        assert(named(raw, row_bytes as int, n - 1));
    }
}

proof fn lemma_unnamed_row(raw: Seq<u8>, row_bytes: nat, bpp: nat, n: nat, row: int)
    requires
        0 <= row < n,
        forall|i: int| 0 <= i < row ==> #[trigger] named(raw, row_bytes as int, i),
        !named(raw, row_bytes as int, row),
    ensures
        filter::unfiltered_rows(raw, row_bytes, bpp, n) == Err::<Seq<u8>, int>(row),
    decreases n,
{
    let m = (n - 1) as nat;
    if row < m {
        lemma_unnamed_row(raw, row_bytes, bpp, m, row);
    } else {
        lemma_named_rows(raw, row_bytes, bpp, m);
    }
}

/// The data of one pass.
pub open spec fn data_of(info: InfoView, raw: Seq<u8>, pass: int) -> Seq<u8> {
    raw.subrange(data_start(info, pass), data_start(info, pass + 1))
}

/// Where the data of a pass begins: behind the rows of all passes before it.
pub open spec fn data_start(info: InfoView, pass: int) -> int
    decreases pass,
{
    if pass <= 0 {
        0
    } else {
        data_start(info, pass - 1) + if nothing(info, pass - 1) {
            0
        } else {
            down(info, pass - 1) * (1 + bytes_for(across(info, pass - 1), info.bits()))
        }
    }
}

/// How many rows come in the passes before this one. A pass without pixels has none.
pub open spec fn rows_until(info: InfoView, pass: int) -> int
    decreases pass,
{
    if pass <= 0 {
        0
    } else {
        rows_until(info, pass - 1) + if nothing(info, pass - 1) {
            0
        } else {
            down(info, pass - 1)
        }
    }
}

/// Whether row `i` of a pass names a filter.
pub open spec fn row_named(info: InfoView, raw: Seq<u8>, pass: int, i: int) -> bool {
    named(data_of(info, raw, pass), bytes_for(across(info, pass), info.bits()), i)
}

proof fn lemma_starts(info: InfoView, pass: int)
    requires
        info.width > 0,
        info.height > 0,
        0 <= pass <= 7,
    ensures
        data_start(info, pass) == common::passes_len(
            info.width as int,
            info.height as int,
            info.bits(),
            pass,
        ),
        rows_until(info, pass) == file::rows_before(info, pass),
    decreases pass,
{
    if pass > 0 {
        lemma_starts(info, pass - 1);
        lemma_grid(info, pass - 1);
    }
}

proof fn lemma_named_passes(info: InfoView, raw: Seq<u8>, n: int)
    requires
        info.checked() is Ok,
        0 <= n <= 7,
        forall|pass: int, i: int|
            0 <= pass < n && !nothing(info, pass) && 0 <= i < down(info, pass)
                ==> #[trigger] row_named(info, raw, pass, i),
    ensures
        file::unfiltered_passes(info, raw, n) is Ok,
    decreases n,
{
    if n > 0 {
        let k = n - 1;
        lemma_named_passes(info, raw, k);
        lemma_grid(info, k);
        lemma_starts(info, k);
        lemma_starts(info, n);
        if !nothing(info, k) {
            let r = bytes_for(across(info, k), info.bits());
            let part = data_of(info, raw, k);
            assert forall|i: int| 0 <= i < down(info, k) implies #[trigger] named(part, r, i) by {
                assert(row_named(info, raw, k, i));
            }
            lemma_named_rows(part, r as nat, info.stride() as nat, down(info, k) as nat);
        }
    }
}

proof fn lemma_unnamed_pass(info: InfoView, raw: Seq<u8>, n: int, k: int, row: int)
    requires
        info.checked() is Ok,
        0 <= k < n <= 7,
        !nothing(info, k),
        0 <= row < down(info, k),
        forall|pass: int, i: int|
            0 <= pass < k && !nothing(info, pass) && 0 <= i < down(info, pass)
                ==> #[trigger] row_named(info, raw, pass, i),
        forall|i: int| 0 <= i < row ==> #[trigger] row_named(info, raw, k, i),
        !row_named(info, raw, k, row),
    ensures
        file::unfiltered_passes(info, raw, n) == Err::<Seq<Seq<u8>>, int>(
            rows_until(info, k) + row,
        ),
    decreases n,
{
    if k < n - 1 {
        lemma_unnamed_pass(info, raw, n - 1, k, row);
    } else {
        lemma_named_passes(info, raw, k);
        lemma_grid(info, k);
        lemma_starts(info, k);
        lemma_starts(info, n);
        let r = bytes_for(across(info, k), info.bits());
        let part = data_of(info, raw, k);
        assert forall|i: int| 0 <= i < row implies #[trigger] named(part, r, i) by {
            assert(row_named(info, raw, k, i));
        }
        lemma_unnamed_row(part, r as nat, info.stride() as nat, down(info, k) as nat, row);
    }
}

/// An interlaced image with a row whose first byte names no filter is refused, and the row is
/// counted over all passes in front of it, leaving out those without pixels.
pub proof fn law_unnamed_filter_in_a_pass(info: InfoView, raw: Seq<u8>, pass: int, row: int)
    requires
        info.checked() is Ok,
        info.interlacing is Adam7,
        0 <= pass < 7,
        !nothing(info, pass),
        0 <= row < down(info, pass),
        forall|before: int, i: int|
            0 <= before < pass && !nothing(info, before) && 0 <= i < down(info, before)
                ==> #[trigger] row_named(info, raw, before, i),
        forall|i: int| 0 <= i < row ==> #[trigger] row_named(info, raw, pass, i),
        !row_named(info, raw, pass, row),
    ensures
        file::pixels(info, raw) == Err::<Seq<u8>, Error>(
            Error::InvalidFilter { row: (rows_until(info, pass) + row) as usize },
        ),
{
    lemma_unnamed_pass(info, raw, 7, pass, row);
}

/// A sequential image with a row whose first byte names no filter is refused with that row.
pub proof fn law_unnamed_filter(info: InfoView, raw: Seq<u8>, row: int)
    requires
        info.checked() is Ok,
        info.interlacing is Sequential,
        0 <= row < info.height,
        forall|i: int| 0 <= i < row ==> #[trigger] named(raw, info.row_bytes(), i),
        !named(raw, info.row_bytes(), row),
    ensures
        file::pixels(info, raw) == Err::<Seq<u8>, Error>(
            Error::InvalidFilter { row: row as usize },
        ),
{
    common::lemma_sizes(info);
    lemma_unnamed_row(
        raw,
        info.row_bytes() as nat,
        info.stride() as nat,
        info.height as nat,
        row,
    );
}

} // verus!
