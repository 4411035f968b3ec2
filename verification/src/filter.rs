//! PNG scanline filters.
//!
//! Each scanline is prefixed by a filter byte selecting one of five predictors. Decoding
//! reverses the predictor; encoding applies it. Both directions are specialized on the pixel
//! stride with a const generic, because the stride is what determines the serial dependency
//! distance and therefore how the loops schedule.

use vstd::prelude::*;
use vstd::arithmetic::div_mod::*;

verus! {

/// The five filter types a scanline may use.
#[derive(Clone, Copy, PartialEq, Eq, Debug, Structural)]
pub enum Filter {
    /// Bytes as they are.
    Raw,
    /// Each byte against the one a pixel to the left.
    Sub,
    /// Each byte against the one above.
    Up,
    /// Each byte against the mean of left and above.
    Average,
    /// Each byte against the Paeth predictor of left, above and upper left.
    Paeth,
}

/// The type byte of a filter.
pub open spec fn filter_byte(filter: Filter) -> u8 {
    match filter {
        Filter::Raw => 0,
        Filter::Sub => 1,
        Filter::Up => 2,
        Filter::Average => 3,
        Filter::Paeth => 4,
    }
}

/// The filter that a type byte stands for.
pub open spec fn filter_of(byte: u8) -> Option<Filter> {
    if byte == 0 {
        Some(Filter::Raw)
    } else if byte == 1 {
        Some(Filter::Sub)
    } else if byte == 2 {
        Some(Filter::Up)
    } else if byte == 3 {
        Some(Filter::Average)
    } else if byte == 4 {
        Some(Filter::Paeth)
    } else {
        None
    }
}

impl Filter {
    /// Every filter, in the order their type bytes are numbered.
    pub const ALL: [Filter; 5] = [
        Filter::Raw,
        Filter::Sub,
        Filter::Up,
        Filter::Average,
        Filter::Paeth,
    ];

    /// Reads a filter from the type byte in front of a scanline. `None` for a byte that
    /// names no filter.
    pub fn from_byte(byte: u8) -> (filter: Option<Self>)
        ensures
            filter == filter_of(byte),
    {
        if byte == 0 {
            Some(Filter::Raw)
        } else if byte == 1 {
            Some(Filter::Sub)
        } else if byte == 2 {
            Some(Filter::Up)
        } else if byte == 3 {
            Some(Filter::Average)
        } else if byte == 4 {
            Some(Filter::Paeth)
        } else {
            None
        }
    }

    /// The type byte that goes in front of a scanline.
    pub fn to_byte(self) -> (byte: u8)
        ensures
            byte == filter_byte(self),
            filter_of(byte) == Some(self),
            byte < 5,
    {
        match self {
            Filter::Raw => 0,
            Filter::Sub => 1,
            Filter::Up => 2,
            Filter::Average => 3,
            Filter::Paeth => 4,
        }
    }
}

// ---------------------------------------------------------------------------------------
// Predictors
// ---------------------------------------------------------------------------------------

pub open spec fn distance(x: int, y: int) -> int {
    if x < y {
        y - x
    } else {
        x - y
    }
}

/// The Paeth predictor as the format words it: of left, above and upper left, in that
/// order of preference, the one nearest to `left + above - upper_left`.
pub open spec fn paeth_of(left: int, above: int, upper_left: int) -> int {
    let p = left + above - upper_left;
    let pa = distance(p, left);
    let pb = distance(p, above);
    let pc = distance(p, upper_left);
    if pa <= pb && pa <= pc {
        left
    } else if pb <= pc {
        above
    } else {
        upper_left
    }
}

/// What a filter predicts for a byte from its neighbours.
pub open spec fn predicted(filter: Filter, left: u8, above: u8, upper_left: u8) -> int {
    match filter {
        Filter::Raw => 0,
        Filter::Sub => left as int,
        Filter::Up => above as int,
        Filter::Average => (left + above) / 2,
        Filter::Paeth => paeth_of(left as int, above as int, upper_left as int),
    }
}

/// The byte a pixel to the left of byte `i`, zero off the left edge.
pub open spec fn before(row: Seq<u8>, i: int, bpp: nat) -> u8 {
    if i < bpp {
        0
    } else {
        row[i - bpp]
    }
}

/// Byte `i` of a filtered row.
pub open spec fn filtered_byte(filter: Filter, bpp: nat, prev: Seq<u8>, row: Seq<u8>, i: int) -> u8 {
    ((row[i] - predicted(filter, before(row, i, bpp), prev[i], before(prev, i, bpp))) % 256) as u8
}

/// A row with a filter applied, `prev` being the row above it.
pub open spec fn filtered(filter: Filter, bpp: nat, prev: Seq<u8>, row: Seq<u8>) -> Seq<u8> {
    Seq::new(row.len(), |i: int| filtered_byte(filter, bpp, prev, row, i))
}

/// Whether byte `i` of a row of `len` bytes lies behind its last whole pixel.
#[verifier::opaque]
pub open spec fn ragged(len: int, bpp: nat, i: int) -> bool {
    i >= len - len % (bpp as int)
}

/// The first `n` bytes of a row with its filter reversed. Only the filter that looks straight
/// up reaches bytes behind the last whole pixel.
pub open spec fn restored(filter: Filter, bpp: nat, prev: Seq<u8>, raw: Seq<u8>, n: nat) -> Seq<u8>
    decreases n,
{
    if n == 0 {
        Seq::empty()
    } else {
        let i = n - 1;
        let done = restored(filter, bpp, prev, raw, i as nat);
        let byte = if filter != Filter::Up && ragged(raw.len() as int, bpp, i) {
            raw[i]
        } else {
            ((raw[i] + predicted(
                filter,
                before(done, i, bpp),
                prev[i],
                before(prev, i, bpp),
            )) % 256) as u8
        };
        done.push(byte)
    }
}

/// A row with its filter reversed.
pub open spec fn unfiltered(filter: Filter, bpp: nat, prev: Seq<u8>, raw: Seq<u8>) -> Seq<u8> {
    restored(filter, bpp, prev, raw, raw.len())
}

pub proof fn lemma_restored_len(filter: Filter, bpp: nat, prev: Seq<u8>, raw: Seq<u8>, n: nat)
    ensures
        restored(filter, bpp, prev, raw, n).len() == n,
    decreases n,
{
    if n > 0 {
        lemma_restored_len(filter, bpp, prev, raw, (n - 1) as nat);
    }
}

/// Later bytes do not change earlier ones.
pub proof fn lemma_restored_prefix(
    filter: Filter,
    bpp: nat,
    prev: Seq<u8>,
    raw: Seq<u8>,
    m: nat,
    n: nat,
)
    requires
        m <= n,
    ensures
        restored(filter, bpp, prev, raw, n).take(m as int) == restored(filter, bpp, prev, raw, m),
    decreases n,
{
    lemma_restored_len(filter, bpp, prev, raw, m);
    lemma_restored_len(filter, bpp, prev, raw, n);
    let all = restored(filter, bpp, prev, raw, n);
    if m == n {
        assert(all.take(m as int) =~= all);
    } else {
        let k = (n - 1) as nat;
        lemma_restored_prefix(filter, bpp, prev, raw, m, k);
        lemma_restored_len(filter, bpp, prev, raw, k);
        assert(all.take(m as int) =~= restored(filter, bpp, prev, raw, k).take(m as int));
    }
}

/// Only the bytes above and to the left count.
proof fn lemma_restored_same(
    filter: Filter,
    bpp: nat,
    a: Seq<u8>,
    b: Seq<u8>,
    raw: Seq<u8>,
    n: nat,
)
    requires
        n <= a.len(),
        n <= b.len(),
        bpp >= 1,
        forall|i: int| 0 <= i < n ==> #[trigger] a[i] == b[i],
    ensures
        restored(filter, bpp, a, raw, n) == restored(filter, bpp, b, raw, n),
    decreases n,
{
    if n > 0 {
        lemma_restored_same(filter, bpp, a, b, raw, (n - 1) as nat);
        assert(a[n - 1] == b[n - 1]);
        if n - 1 >= bpp {
            assert(a[n - 1 - bpp] == b[n - 1 - bpp]);
        }
    }
}

proof fn lemma_round_trip_prefix(
    filter: Filter,
    bpp: nat,
    prev: Seq<u8>,
    row: Seq<u8>,
    n: nat,
)
    requires
        bpp >= 1,
        row.len() % bpp == 0,
        prev.len() == row.len(),
        n <= row.len(),
    ensures
        restored(filter, bpp, prev, filtered(filter, bpp, prev, row), n) == row.take(n as int),
    decreases n,
{
    let raw = filtered(filter, bpp, prev, row);
    if n == 0 {
        assert(row.take(0) =~= Seq::<u8>::empty());
    } else {
        let k = (n - 1) as nat;
        let i = n - 1;
        lemma_round_trip_prefix(filter, bpp, prev, row, k);
        let done = restored(filter, bpp, prev, raw, k);
        assert(done == row.take(i));
        reveal(ragged);
        assert(before(done, i, bpp) == before(row, i, bpp));
        let p = predicted(filter, before(row, i, bpp), prev[i], before(prev, i, bpp));
        let x = row[i] as int;
        assert(raw[i] == ((x - p) % 256) as u8);
        lemma_add_mod_noop(x - p, p, 256);
        lemma_add_mod_noop((x - p) % 256, p, 256);
        lemma_mod_twice(x - p, 256);
        assert(((x - p) % 256 + p) % 256 == x % 256);
        assert(row.take(n as int) =~= row.take(i).push(row[i]));
    }
}

/// Reversing a filter gives back the row it was applied to, for every filter and every pixel
/// stride.
pub proof fn law_filter_round_trip(filter: Filter, bpp: nat, prev: Seq<u8>, row: Seq<u8>)
    requires
        bpp >= 1,
        row.len() % bpp == 0,
        prev.len() == row.len(),
    ensures
        unfiltered(filter, bpp, prev, filtered(filter, bpp, prev, row)) == row,
{
    lemma_round_trip_prefix(filter, bpp, prev, row, row.len());
    assert(row.take(row.len() as int) =~= row);
}

/// The Paeth predictor: whichever of the three neighbours the linear estimate `a + b - c`
/// lands closest to.
///
/// Written as a running minimum rather than the format's nested comparison. The two
/// forms select the same neighbour, including at ties, but this one is a chain of compares
/// and selects with no branches, and maps onto vector min/select when the surrounding loop
/// gets unrolled across a pixel.
pub fn paeth(a: i16, b: i16, c: i16) -> (nearest: u8)
    requires
        0 <= a <= 255,
        0 <= b <= 255,
        0 <= c <= 255,
    ensures
        nearest == paeth_of(a as int, b as int, c as int),
{
    // `p - a` is `b - c` and `p - b` is `a - c`, so the three distances need only two
    // differences between them.
    let da: i16 = b - c;
    let db: i16 = a - c;
    let pa: i16 = if da < 0 {
        -da
    } else {
        da
    };
    let pb: i16 = if db < 0 {
        -db
    } else {
        db
    };
    let sum: i16 = da + db;
    let pc: i16 = if sum < 0 {
        -sum
    } else {
        sum
    };
    let mut nearest: i16 = a;
    let mut smallest: i16 = pa;
    if pb < smallest {
        nearest = b;
        smallest = pb;
    }
    if pc < smallest {
        nearest = c;
    }
    nearest as u8
}

/// The Paeth predictor over plain bytes, for callers outside the filter loops.
pub fn paeth_predictor(left: u8, above: u8, upper_left: u8) -> (nearest: u8)
    ensures
        nearest == paeth_of(left as int, above as int, upper_left as int),
{
    paeth(left as i16, above as i16, upper_left as i16)
}

/// What `filter` predicts for a byte from its neighbours.
pub fn predict(filter: Filter, left: u8, above: u8, upper_left: u8) -> (value: u8)
    ensures
        value == predicted(filter, left, above, upper_left),
{
    match filter {
        Filter::Raw => 0,
        Filter::Sub => left,
        Filter::Up => above,
        Filter::Average => ((left as u16 + above as u16) / 2) as u8,
        Filter::Paeth => paeth_predictor(left, above, upper_left),
    }
}

// ---------------------------------------------------------------------------------------
// Encoding
// ---------------------------------------------------------------------------------------

/// Applies `filter` to `row`, writing the residuals to `out`.
///
/// `prev` is the unfiltered row above, or an all-zero slice for the first row.
pub fn filter_row<const BPP: usize>(filter: Filter, prev: &[u8], row: &[u8], out: &mut [u8])
    requires
        BPP >= 1,
        prev@.len() == row@.len(),
        row@.len() == old(out)@.len(),
    ensures
        final(out)@ == filtered(filter, BPP as nat, prev@, row@),
{
    let ghost want = filtered(filter, BPP as nat, prev@, row@);
    let len: usize = row.len();
    let head: usize = if BPP < len {
        BPP
    } else {
        len
    };
    let mut i: usize = 0;
    while i < head
        invariant
            i <= head <= len,
            head <= BPP,
            len == row@.len() == prev@.len() == out@.len(),
            want == filtered(filter, BPP as nat, prev@, row@),
            forall|k: int| 0 <= k < i ==> #[trigger] out@[k] == want[k],
        decreases head - i,
    {
        out[i] = row[i].wrapping_sub(predict(filter, 0, prev[i], 0));
        assert(out@[i as int] == want[i as int]);
        i = i + 1;
    }
    while i < len
        invariant
            i <= len,
            BPP >= 1,
            i < len ==> i >= BPP,
            len == row@.len() == prev@.len() == out@.len(),
            want == filtered(filter, BPP as nat, prev@, row@),
            forall|k: int| 0 <= k < i ==> #[trigger] out@[k] == want[k],
        decreases len - i,
    {
        out[i] = row[i].wrapping_sub(
            predict(filter, row[i - BPP], prev[i], prev[i - BPP]),
        );
        assert(out@[i as int] == want[i as int]);
        i = i + 1;
    }
    assert(out@ =~= want);
}

// ---------------------------------------------------------------------------------------
// Decoding
// ---------------------------------------------------------------------------------------

/// The rows of a filtered image so far, or the first row whose type byte names no filter.
///
/// `raw` holds records of one type byte and `row_bytes` filtered bytes each.
pub open spec fn unfiltered_rows(raw: Seq<u8>, row_bytes: nat, bpp: nat, n: nat) -> Result<
    Seq<u8>,
    int,
>
    decreases n,
{
    if n == 0 {
        Ok(Seq::empty())
    } else {
        match unfiltered_rows(raw, row_bytes, bpp, (n - 1) as nat) {
            Err(row) => Err(row),
            Ok(image) => next_row(raw, row_bytes, bpp, n - 1, image),
        }
    }
}

/// Where the record of a row begins.
pub open spec fn record_at(row_bytes: nat, row: int) -> int {
    row * (1 + row_bytes)
}

/// `image` with the next row restored.
pub open spec fn next_row(raw: Seq<u8>, row_bytes: nat, bpp: nat, row: int, image: Seq<u8>) -> Result<
    Seq<u8>,
    int,
> {
    let at = record_at(row_bytes, row);
    match filter_of(raw[at]) {
        None => Err(row),
        Some(filter) => Ok(
            image + unfiltered(
                filter,
                bpp,
                row_above(image, row_bytes, row),
                raw.subrange(at + 1, at + 1 + row_bytes),
            ),
        ),
    }
}

/// The row above a row: zeros above the first one.
pub open spec fn row_above(image: Seq<u8>, row_bytes: nat, row: int) -> Seq<u8> {
    if row == 0 {
        Seq::new(row_bytes, |i: int| 0u8)
    } else {
        image.subrange((row - 1) * row_bytes, row * row_bytes)
    }
}

pub proof fn lemma_unfiltered_rows_len(raw: Seq<u8>, row_bytes: nat, bpp: nat, n: nat)
    requires
        record_at(row_bytes, n as int) <= raw.len(),
    ensures
        unfiltered_rows(raw, row_bytes, bpp, n) matches Ok(image) ==> image.len() == n * row_bytes,
    decreases n,
{
    if n > 0 {
        let m = (n - 1) as nat;
        assert(n * (1 + row_bytes) == m * (1 + row_bytes) + 1 + row_bytes) by (nonlinear_arith)
            requires
                n == m + 1,
        ;
        assert(n * row_bytes == m * row_bytes + row_bytes) by (nonlinear_arith)
            requires
                n == m + 1,
        ;
        lemma_unfiltered_rows_len(raw, row_bytes, bpp, m);
        let at = record_at(row_bytes, m as int);
        assert(0 <= at) by (nonlinear_arith)
            requires
                at == m * (1 + row_bytes),
        ;
        if let Ok(image) = unfiltered_rows(raw, row_bytes, bpp, m) {
            if let Some(filter) = filter_of(raw[at]) {
                lemma_restored_len(
                    filter,
                    bpp,
                    row_above(image, row_bytes, m as int),
                    raw.subrange(at + 1, at + 1 + row_bytes),
                    row_bytes,
                );
            }
        }
    } else {
        assert(0 * row_bytes == 0) by (nonlinear_arith);
    }
}

/// The row that a filtered image fails at is one of its rows.
pub proof fn lemma_unfiltered_rows_error(raw: Seq<u8>, row_bytes: nat, bpp: nat, n: nat)
    ensures
        unfiltered_rows(raw, row_bytes, bpp, n) matches Err(row) ==> 0 <= row < n,
    decreases n,
{
    if n > 0 {
        lemma_unfiltered_rows_error(raw, row_bytes, bpp, (n - 1) as nat);
    }
}

/// Bytes behind the last whole pixel stay as they are.
proof fn lemma_restored_tail(
    filter: Filter,
    bpp: nat,
    prev: Seq<u8>,
    raw: Seq<u8>,
    m: nat,
    n: nat,
)
    requires
        filter != Filter::Up,
        bpp >= 1,
        m == raw.len() - raw.len() % bpp,
        m <= n <= raw.len(),
    ensures
        restored(filter, bpp, prev, raw, n) == restored(filter, bpp, prev, raw, m) + raw.subrange(
            m as int,
            n as int,
        ),
    decreases n,
{
    reveal(ragged);
    if m < n {
        let k = (n - 1) as nat;
        lemma_restored_tail(filter, bpp, prev, raw, m, k);
        assert(raw.subrange(m as int, n as int) =~= raw.subrange(m as int, k as int).push(
            raw[k as int],
        ));
    } else {
        assert(raw.subrange(m as int, n as int) =~= Seq::<u8>::empty());
        assert(restored(filter, bpp, prev, raw, n) =~= restored(filter, bpp, prev, raw, m)
            + Seq::<u8>::empty());
    }
}

/// A row that nothing was predicted for is its own restoration.
proof fn lemma_restored_plain(filter: Filter, bpp: nat, prev: Seq<u8>, raw: Seq<u8>, n: nat)
    requires
        n <= raw.len(),
        n <= prev.len(),
        filter == Filter::Raw || (filter == Filter::Up && forall|i: int|
            0 <= i < n ==> #[trigger] prev[i] == 0),
    ensures
        restored(filter, bpp, prev, raw, n) == raw.take(n as int),
    decreases n,
{
    if n > 0 {
        let k = (n - 1) as nat;
        lemma_restored_plain(filter, bpp, prev, raw, k);
        assert(prev[k as int] == 0 || filter == Filter::Raw);
        assert(raw.take(n as int) =~= raw.take(k as int).push(raw[k as int]));
    } else {
        assert(raw.take(0) =~= Seq::<u8>::empty());
    }
}

/// Moves `count` bytes down from `source` to `dest`.
fn move_down(buffer: &mut [u8], source: usize, dest: usize, count: usize)
    requires
        dest <= source,
        source + count <= old(buffer)@.len(),
    ensures
        final(buffer)@.len() == old(buffer)@.len(),
        final(buffer)@.subrange(dest as int, dest + count) == old(buffer)@.subrange(
            source as int,
            source + count,
        ),
        forall|k: int| 0 <= k < dest ==> #[trigger] final(buffer)@[k] == old(buffer)@[k],
        forall|k: int|
            source + count <= k < old(buffer)@.len() ==> #[trigger] final(buffer)@[k] == old(buffer)@[k],
{
    let total: usize = buffer.len();
    let mut i: usize = 0;
    while i < count
        invariant
            i <= count,
            dest <= source,
            source + count <= buffer@.len(),
            total == buffer@.len() == old(buffer)@.len(),
            forall|k: int|
                0 <= k < i ==> #[trigger] buffer@[dest + k] == old(buffer)@[source + k],
            forall|k: int| source + i <= k < buffer@.len() ==> #[trigger] buffer@[k] == old(buffer)@[k],
            forall|k: int| 0 <= k < dest ==> #[trigger] buffer@[k] == old(buffer)@[k],
        decreases count - i,
    {
        let byte: u8 = buffer[source + i];
        assert(byte == old(buffer)@[source + i]);
        let ghost before = buffer@;
        buffer[dest + i] = byte;
        proof {
            assert forall|k: int| 0 <= k < i + 1 implies #[trigger] buffer@[dest + k] == old(buffer)@[source + k] by {
                if k < i {
                    assert(before[dest + k] == old(buffer)@[source + k]);
                }
            }
        }
        i = i + 1;
    }
    proof {
        let l = buffer@.subrange(dest as int, dest + count);
        let r = old(buffer)@.subrange(source as int, source + count);
        assert forall|k: int| 0 <= k < count implies l[k] == r[k] by {
            assert(buffer@[dest + k] == old(buffer)@[source + k]);
        }
        assert(l =~= r);
    }
}

/// Byte `i` of the row at `at` with its filter reversed. The row above is at `above`, or all
/// zeros for the first row.
spec fn restored_byte(
    filter: Filter,
    buffer: Seq<u8>,
    at: int,
    above: int,
    first: bool,
    bpp: nat,
    i: int,
) -> u8 {
    let left = if i < bpp {
        0
    } else {
        buffer[at + i - bpp]
    };
    let up = if first {
        0
    } else {
        buffer[above + i]
    };
    let upper_left = if first || i < bpp {
        0
    } else {
        buffer[above + i - bpp]
    };
    ((buffer[at + i] + predicted(filter, left, up, upper_left)) % 256) as u8
}

/// One more byte of a row is restored.
proof fn lemma_restored_step(
    filter: Filter,
    buffer: Seq<u8>,
    at: int,
    above: int,
    first: bool,
    bpp: nat,
    i: int,
    prev: Seq<u8>,
    raw: Seq<u8>,
)
    requires
        bpp >= 1,
        0 <= i < raw.len(),
        0 <= at,
        at + i < buffer.len(),
        filter == Filter::Up || !ragged(raw.len() as int, bpp, i),
        buffer.subrange(at, at + i) == restored(filter, bpp, prev, raw, i as nat),
        buffer[at + i] == raw[i],
        prev[i] == (if first {
            0
        } else {
            buffer[above + i]
        }),
        i >= bpp ==> prev[i - bpp] == (if first {
            0
        } else {
            buffer[above + i - bpp]
        }),
    ensures
        buffer.update(at + i, restored_byte(filter, buffer, at, above, first, bpp, i)).subrange(
            at,
            at + i + 1,
        ) == restored(filter, bpp, prev, raw, (i + 1) as nat),
{
    let v = restored_byte(filter, buffer, at, above, first, bpp, i);
    let done = buffer.subrange(at, at + i);
    if i >= bpp {
        assert(done[i - bpp] == buffer[at + i - bpp]);
    }
    assert(buffer.update(at + i, v).subrange(at, at + i + 1) =~= done.push(v));
}

/// Reverses the filter on byte `i` of the row at `at`.
fn restore_byte<const BPP: usize>(
    filter: Filter,
    buffer: &mut [u8],
    at: usize,
    above: usize,
    first: bool,
    i: usize,
)
    requires
        BPP >= 1,
        above <= at,
        at + i < old(buffer)@.len(),
    ensures
        final(buffer)@ == old(buffer)@.update(
            at + i,
            restored_byte(
                filter,
                old(buffer)@,
                at as int,
                above as int,
                first,
                BPP as nat,
                i as int,
            ),
        ),
{
    assert(buffer.len() <= usize::MAX);
    let left: u8 = if i < BPP {
        0
    } else {
        buffer[at + i - BPP]
    };
    let up: u8 = if first {
        0
    } else {
        buffer[above + i]
    };
    let upper_left: u8 = if first || i < BPP {
        0
    } else {
        buffer[above + i - BPP]
    };
    buffer[at + i] = buffer[at + i].wrapping_add(predict(filter, left, up, upper_left));
}

/// Only the last bytes of a row can lie behind its whole pixels.
proof fn lemma_whole_pixels(len: int, bpp: nat)
    requires
        bpp >= 1,
        len >= 0,
    ensures
        0 <= len - len % (bpp as int) <= len,
        forall|k: int| k < len - len % (bpp as int) ==> !#[trigger] ragged(len, bpp, k),
{
    reveal(ragged);
    lemma_mod_decreases(len as nat, bpp);
}

/// Reverses the filter on the scanline at `buffer[at..at + row_bytes]`, given the
/// already-reconstructed row above it, or none for the first scanline.
///
/// The row above the first one is defined to be all zeros, which collapses `Up` to a no-op
/// and reduces `Paeth` to `Sub`.
fn unfilter_row<const BPP: usize>(
    filter: Filter,
    buffer: &mut [u8],
    at: usize,
    row_bytes: usize,
    first: bool,
)
    requires
        BPP >= 1,
        at + row_bytes <= old(buffer)@.len(),
        !first ==> row_bytes <= at,
    ensures
        final(buffer)@.len() == old(buffer)@.len(),
        final(buffer)@.subrange(at as int, at + row_bytes) == unfiltered(
            filter,
            BPP as nat,
            if first {
                Seq::new(row_bytes as nat, |i: int| 0u8)
            } else {
                old(buffer)@.subrange(at - row_bytes, at as int)
            },
            old(buffer)@.subrange(at as int, at + row_bytes),
        ),
        forall|k: int|
            0 <= k < old(buffer)@.len() && !(at <= k < at + row_bytes) ==> #[trigger] final(buffer)@[k] == old(buffer)@[k],
{
    let total: usize = buffer.len();
    let ghost raw = buffer@.subrange(at as int, at + row_bytes);
    let ghost prev = if first {
        Seq::new(row_bytes as nat, |i: int| 0u8)
    } else {
        buffer@.subrange(at - row_bytes, at as int)
    };
    let ghost bpp = BPP as nat;
    if filter == Filter::Raw || (first && filter == Filter::Up) {
        proof {
            lemma_restored_plain(filter, bpp, prev, raw, row_bytes as nat);
            assert(raw.take(row_bytes as int) =~= raw);
        }
        return;
    }
    proof {
        lemma_whole_pixels(row_bytes as int, bpp);
    }
    let end: usize = if filter == Filter::Up {
        row_bytes
    } else {
        row_bytes - row_bytes % BPP
    };
    let above: usize = if first {
        at
    } else {
        at - row_bytes
    };
    let mut i: usize = 0;
    assert(buffer@.subrange(at as int, at + 0) =~= Seq::<u8>::empty());
    while i < end
        invariant
            i <= end <= row_bytes,
            BPP >= 1,
            bpp == BPP,
            filter == Filter::Up || forall|k: int|
                0 <= k < end ==> !#[trigger] ragged(row_bytes as int, bpp, k),
            at + row_bytes <= buffer@.len(),
            total == buffer@.len() == old(buffer)@.len(),
            above <= at,
            !first ==> above == at - row_bytes,
            raw == old(buffer)@.subrange(at as int, at + row_bytes),
            prev == (if first {
                Seq::new(row_bytes as nat, |i: int| 0u8)
            } else {
                old(buffer)@.subrange(at - row_bytes, at as int)
            }),
            buffer@.subrange(at as int, at + i) == restored(filter, bpp, prev, raw, i as nat),
            forall|k: int|
                0 <= k < buffer@.len() && !(at <= k < at + i) ==> #[trigger] buffer@[k] == old(buffer)@[k],
        decreases end - i,
    {
        proof {
            assert(filter == Filter::Up || !ragged(row_bytes as int, bpp, i as int));
            assert(raw[i as int] == buffer@[at + i]);
            if !first {
                assert(prev[i as int] == buffer@[above + i]);
                if i >= BPP {
                    assert(prev[i - BPP] == buffer@[above + i - BPP]);
                }
            }
            lemma_restored_step(
                filter,
                buffer@,
                at as int,
                above as int,
                first,
                bpp,
                i as int,
                prev,
                raw,
            );
        }
        restore_byte::<BPP>(filter, buffer, at, above, first, i);
        i = i + 1;
    }
    proof {
        if filter != Filter::Up {
            lemma_restored_tail(filter, bpp, prev, raw, end as nat, row_bytes as nat);
            assert(buffer@.subrange(at as int, at + row_bytes) =~= buffer@.subrange(
                at as int,
                at + end,
            ) + raw.subrange(end as int, row_bytes as int));
        }
    }
}

/// Reverses `Paeth` on two adjacent rows at once, as a wavefront one pixel deep.
///
/// Reconstruction is serial along a row, and the Paeth predictor is a long enough chain of
/// compares and selects that a single row leaves the machine mostly waiting rather than
/// working: the loop is bound by the latency of that chain, not by its throughput. Taking
/// the two rows on an anti-diagonal fills the idle slots. Row `r` pixel `x` needs row `r`
/// pixel `x - 1`, and row `r + 1` pixel `x - 1` needs row `r + 1` pixel `x - 2` along with
/// row `r` pixels `x - 1` and `x - 2`; every one of those settled before this step, so the
/// two predictions are independent of each other and issue together.
///
/// The reconstructed row above stands in front of `at`; the two rows follow it, filtered on
/// entry and reconstructed on return.
fn unfilter_paeth_pair<const BPP: usize>(buffer: &mut [u8], at: usize, row_bytes: usize)
    requires
        BPP >= 1,
        BPP <= 8,
        row_bytes <= at,
        at + 2 * row_bytes <= old(buffer)@.len(),
    ensures
        final(buffer)@.len() == old(buffer)@.len(),
        ({
            let above = old(buffer)@.subrange(at - row_bytes, at as int);
            let first = unfiltered(
                Filter::Paeth,
                BPP as nat,
                above,
                old(buffer)@.subrange(at as int, at + row_bytes),
            );
            let second = unfiltered(
                Filter::Paeth,
                BPP as nat,
                first,
                old(buffer)@.subrange(at + row_bytes, at + 2 * row_bytes),
            );
            &&& final(buffer)@.subrange(at as int, at + row_bytes) == first
            &&& final(buffer)@.subrange(at + row_bytes, at + 2 * row_bytes) == second
        }),
        forall|k: int|
            0 <= k < old(buffer)@.len() && !(at <= k < at + 2 * row_bytes) ==> #[trigger] final(buffer)@[k] == old(buffer)@[k],
{
    let total: usize = buffer.len();
    let ghost bpp = BPP as nat;
    let ghost orig = buffer@;
    proof {
        lemma_whole_pixels(row_bytes as int, bpp);
    }
    let end: usize = row_bytes - row_bytes % BPP;
    proof {
        reveal(pair_state);
        assert(orig.subrange(at as int, at + 0) =~= Seq::<u8>::empty());
        assert(orig.subrange(at + row_bytes, at + row_bytes + 0) =~= Seq::<u8>::empty());
    }
    // Byte `i` of the first row goes together with byte `i - BPP` of the second.
    let mut i: usize = 0;
    while i < end + BPP
        invariant
            1 <= BPP <= 8,
            bpp == BPP,
            end <= row_bytes,
            forall|k: int| 0 <= k < end ==> !#[trigger] ragged(row_bytes as int, bpp, k),
            i <= end + BPP,
            row_bytes <= at,
            at + 2 * row_bytes <= orig.len(),
            total == buffer@.len() == orig.len(),
            end + BPP <= usize::MAX,
            pair_state(
                buffer@,
                orig,
                at as int,
                row_bytes as nat,
                bpp,
                least(i as int, end as int),
                trailing(i as int, bpp),
            ),
        decreases end + BPP - i,
    {
        if i < end {
            proof {
                assert(!ragged(row_bytes as int, bpp, i as int));
                lemma_pair_first(
                    buffer@,
                    orig,
                    at as int,
                    row_bytes as nat,
                    bpp,
                    i as int,
                    trailing(i as int, bpp),
                );
            }
            restore_byte::<BPP>(Filter::Paeth, buffer, at, at - row_bytes, false, i);
        }
        if i >= BPP {
            let j: usize = i - BPP;
            proof {
                assert(!ragged(row_bytes as int, bpp, j as int));
                lemma_pair_second(
                    buffer@,
                    orig,
                    at as int,
                    row_bytes as nat,
                    bpp,
                    least(i + 1, end as int),
                    j as int,
                );
            }
            restore_byte::<BPP>(Filter::Paeth, buffer, at + row_bytes, at, false, j);
        }
        i = i + 1;
    }
    proof {
        reveal(pair_state);
        let above = orig.subrange(at - row_bytes, at as int);
        let raw1 = orig.subrange(at as int, at + row_bytes);
        let raw2 = orig.subrange(at + row_bytes, at + 2 * row_bytes);
        let row1 = unfiltered(Filter::Paeth, bpp, above, raw1);
        lemma_restored_tail(Filter::Paeth, bpp, above, raw1, end as nat, row_bytes as nat);
        lemma_restored_tail(Filter::Paeth, bpp, row1, raw2, end as nat, row_bytes as nat);
        assert(buffer@.subrange(at as int, at + row_bytes) =~= buffer@.subrange(at as int, at + end)
            + raw1.subrange(end as int, row_bytes as int));
        assert(buffer@.subrange(at + row_bytes, at + 2 * row_bytes) =~= buffer@.subrange(
            at + row_bytes,
            at + row_bytes + end,
        ) + raw2.subrange(end as int, row_bytes as int));
    }
}

/// A pair of rows of which `m` bytes of the first and `t` bytes of the second are restored.
#[verifier::opaque]
spec fn pair_state(
    buffer: Seq<u8>,
    orig: Seq<u8>,
    at: int,
    row_bytes: nat,
    bpp: nat,
    m: int,
    t: int,
) -> bool {
    let above = orig.subrange(at - row_bytes, at);
    let raw1 = orig.subrange(at, at + row_bytes);
    let raw2 = orig.subrange(at + row_bytes, at + 2 * row_bytes);
    let row1 = unfiltered(Filter::Paeth, bpp, above, raw1);
    &&& buffer.len() == orig.len()
    &&& buffer.subrange(at, at + m) == restored(Filter::Paeth, bpp, above, raw1, m as nat)
    &&& buffer.subrange(at + row_bytes, at + row_bytes + t) == restored(
        Filter::Paeth,
        bpp,
        row1,
        raw2,
        t as nat,
    )
    &&& forall|k: int|
        0 <= k < buffer.len() && !(at <= k < at + m) && !(at + row_bytes <= k < at + row_bytes + t)
            ==> #[trigger] buffer[k] == orig[k]
}

proof fn lemma_pair_first(
    buffer: Seq<u8>,
    orig: Seq<u8>,
    at: int,
    row_bytes: nat,
    bpp: nat,
    m: int,
    t: int,
)
    requires
        bpp >= 1,
        row_bytes <= at,
        at + 2 * row_bytes <= orig.len(),
        0 <= m < row_bytes,
        0 <= t <= m,
        !ragged(row_bytes as int, bpp, m),
        pair_state(buffer, orig, at, row_bytes, bpp, m, t),
    ensures
        pair_state(
            buffer.update(
                at + m,
                restored_byte(Filter::Paeth, buffer, at, at - row_bytes, false, bpp, m),
            ),
            orig,
            at,
            row_bytes,
            bpp,
            m + 1,
            t,
        ),
{
    reveal(pair_state);
    let above = orig.subrange(at - row_bytes, at);
    let raw1 = orig.subrange(at, at + row_bytes);
    assert(buffer[at + m] == orig[at + m]);
    assert(buffer[at - row_bytes + m] == orig[at - row_bytes + m]);
    if m >= bpp {
        assert(buffer[at - row_bytes + m - bpp] == orig[at - row_bytes + m - bpp]);
    }
    lemma_restored_step(
        Filter::Paeth,
        buffer,
        at,
        at - row_bytes,
        false,
        bpp,
        m,
        above,
        raw1,
    );
    let next = buffer.update(
        at + m,
        restored_byte(Filter::Paeth, buffer, at, at - row_bytes, false, bpp, m),
    );
    assert(next.subrange(at + row_bytes, at + row_bytes + t) =~= buffer.subrange(
        at + row_bytes,
        at + row_bytes + t,
    ));
}

proof fn lemma_pair_second(
    buffer: Seq<u8>,
    orig: Seq<u8>,
    at: int,
    row_bytes: nat,
    bpp: nat,
    m: int,
    t: int,
)
    requires
        bpp >= 1,
        row_bytes <= at,
        at + 2 * row_bytes <= orig.len(),
        0 <= t < m <= row_bytes,
        !ragged(row_bytes as int, bpp, t),
        pair_state(buffer, orig, at, row_bytes, bpp, m, t),
    ensures
        pair_state(
            buffer.update(
                at + row_bytes + t,
                restored_byte(Filter::Paeth, buffer, at + row_bytes, at, false, bpp, t),
            ),
            orig,
            at,
            row_bytes,
            bpp,
            m,
            t + 1,
        ),
{
    reveal(pair_state);
    let above = orig.subrange(at - row_bytes, at);
    let raw1 = orig.subrange(at, at + row_bytes);
    let raw2 = orig.subrange(at + row_bytes, at + 2 * row_bytes);
    let row1 = unfiltered(Filter::Paeth, bpp, above, raw1);
    let part = buffer.subrange(at, at + m);
    lemma_restored_len(Filter::Paeth, bpp, above, raw1, row_bytes);
    lemma_restored_prefix(Filter::Paeth, bpp, above, raw1, m as nat, row_bytes);
    assert(part == row1.take(m));
    assert(part[t] == buffer[at + t] && part[t] == row1[t]);
    if t >= bpp {
        assert(part[t - bpp] == buffer[at + t - bpp] && part[t - bpp] == row1[t - bpp]);
    }
    assert(buffer[at + row_bytes + t] == orig[at + row_bytes + t]);
    lemma_restored_step(
        Filter::Paeth,
        buffer,
        at + row_bytes,
        at,
        false,
        bpp,
        t,
        row1,
        raw2,
    );
    let next = buffer.update(
        at + row_bytes + t,
        restored_byte(Filter::Paeth, buffer, at + row_bytes, at, false, bpp, t),
    );
    assert(next.subrange(at, at + m) =~= part);
}

spec fn least(a: int, b: int) -> int {
    if a < b {
        a
    } else {
        b
    }
}

/// How far the second row of a pair has come when the first is at `i`.
spec fn trailing(i: int, bpp: nat) -> int {
    if i < bpp {
        0
    } else {
        i - bpp
    }
}

/// Places of a row's record and of the row once restored.
proof fn lemma_places(row: int, row_bytes: nat)
    requires
        row >= 0,
    ensures
        record_at(row_bytes, row + 1) == record_at(row_bytes, row) + 1 + row_bytes,
        (row + 1) * row_bytes == row * row_bytes + row_bytes,
        record_at(row_bytes, row) == row * row_bytes + row,
        0 <= row * row_bytes,
        row >= 1 ==> (row - 1) * row_bytes == row * row_bytes - row_bytes && row_bytes <= row
            * row_bytes,
{
    assert((row + 1) * (1 + row_bytes) == row * (1 + row_bytes) + 1 + row_bytes)
        by (nonlinear_arith);
    assert((row + 1) * row_bytes == row * row_bytes + row_bytes) by (nonlinear_arith);
    assert(row * (1 + row_bytes) == row * row_bytes + row) by (nonlinear_arith);
    assert(0 <= row * row_bytes) by (nonlinear_arith)
        requires
            row >= 0,
    ;
    assert((row - 1) * row_bytes == row * row_bytes - row_bytes) by (nonlinear_arith);
    if row >= 1 {
        assert(row_bytes <= row * row_bytes) by (nonlinear_arith)
            requires
                row >= 1,
        ;
    }
}

/// Rows restored later are further down the buffer.
proof fn lemma_record_order(row_bytes: nat, a: int, b: int)
    requires
        0 <= a <= b,
    ensures
        record_at(row_bytes, a) <= record_at(row_bytes, b),
        a * row_bytes <= b * row_bytes,
        0 <= record_at(row_bytes, a),
{
    assert(a * (1 + row_bytes) <= b * (1 + row_bytes)) by (nonlinear_arith)
        requires
            0 <= a <= b,
    ;
    assert(a * row_bytes <= b * row_bytes) by (nonlinear_arith)
        requires
            0 <= a <= b,
    ;
    assert(0 <= a * (1 + row_bytes)) by (nonlinear_arith)
        requires
            0 <= a,
    ;
}

/// Once a row fails, the image does.
proof fn lemma_rows_err(raw: Seq<u8>, row_bytes: nat, bpp: nat, m: nat, n: nat)
    requires
        m <= n,
        unfiltered_rows(raw, row_bytes, bpp, m) is Err,
    ensures
        unfiltered_rows(raw, row_bytes, bpp, n) == unfiltered_rows(raw, row_bytes, bpp, m),
    decreases n,
{
    if m < n {
        lemma_rows_err(raw, row_bytes, bpp, m, (n - 1) as nat);
    }
}

/// Reverses filtering across a whole image and compacts it in place.
///
/// `buffer` holds `height` records of `1 + row_bytes` bytes, exactly as the compressed
/// stream produced them. On return the reconstructed image occupies `buffer[..height *
/// row_bytes]` with the filter bytes removed. A row whose type byte names no filter is
/// returned as the error.
///
/// Each row is first moved down over the filter bytes that precede it, which is always a
/// forward move, and is then reconstructed against the row already sitting immediately
/// before it. That keeps the previous row where the next one needs it without a scratch
/// buffer.
pub fn unfilter_image(buffer: &mut [u8], row_bytes: usize, height: usize, bpp: usize) -> (result:
    Result<(), usize>)
    requires
        bpp == 1 || bpp == 2 || bpp == 3 || bpp == 4 || bpp == 6 || bpp == 8,
        record_at(row_bytes as nat, height as int) <= old(buffer)@.len(),
    ensures
        final(buffer)@.len() == old(buffer)@.len(),
        match result {
            Ok(()) => unfiltered_rows(old(buffer)@, row_bytes as nat, bpp as nat, height as nat)
                == Ok::<Seq<u8>, int>(final(buffer)@.take(height * row_bytes)),
            Err(row) => unfiltered_rows(old(buffer)@, row_bytes as nat, bpp as nat, height as nat)
                == Err::<Seq<u8>, int>(row as int),
        },
        forall|k: int|
            record_at(row_bytes as nat, height as int) <= k < old(buffer)@.len()
                ==> #[trigger] final(buffer)@[k] == old(buffer)@[k],
{
    if bpp == 1 {
        unfilter_image_bpp::<1>(buffer, row_bytes, height)
    } else if bpp == 2 {
        unfilter_image_bpp::<2>(buffer, row_bytes, height)
    } else if bpp == 3 {
        unfilter_image_bpp::<3>(buffer, row_bytes, height)
    } else if bpp == 4 {
        unfilter_image_bpp::<4>(buffer, row_bytes, height)
    } else if bpp == 6 {
        unfilter_image_bpp::<6>(buffer, row_bytes, height)
    } else {
        unfilter_image_bpp::<8>(buffer, row_bytes, height)
    }
}

/// The rows restored so far stand at the front, the records still to be read where they were.
#[verifier::opaque]
spec fn image_state(
    buffer: Seq<u8>,
    raw: Seq<u8>,
    row_bytes: nat,
    bpp: nat,
    row: int,
) -> bool {
    &&& buffer.len() == raw.len()
    &&& unfiltered_rows(raw, row_bytes, bpp, row as nat) == Ok::<Seq<u8>, int>(
        buffer.take(row * row_bytes),
    )
    &&& forall|k: int| record_at(row_bytes, row) <= k < raw.len() ==> #[trigger] buffer[k] == raw[k]
}

/// One more row is restored.
#[verifier::rlimit(30)]
proof fn lemma_image_row(
    before: Seq<u8>,
    after: Seq<u8>,
    raw: Seq<u8>,
    row_bytes: nat,
    bpp: nat,
    row: int,
    filter: Filter,
)
    requires
        0 <= row,
        record_at(row_bytes, row + 1) <= raw.len(),
        image_state(before, raw, row_bytes, bpp, row),
        filter_of(raw[record_at(row_bytes, row)]) == Some(filter),
        after.len() == raw.len(),
        forall|k: int| 0 <= k < row * row_bytes ==> #[trigger] after[k] == before[k],
        forall|k: int| record_at(row_bytes, row + 1) <= k < raw.len() ==> #[trigger] after[k] == before[k],
        after.subrange(row * row_bytes, row * row_bytes + row_bytes) == unfiltered(
            filter,
            bpp,
            if row == 0 {
                Seq::new(row_bytes, |i: int| 0u8)
            } else {
                before.subrange(row * row_bytes - row_bytes, row * row_bytes)
            },
            raw.subrange(record_at(row_bytes, row) + 1, record_at(row_bytes, row) + 1 + row_bytes),
        ),
    ensures
        image_state(after, raw, row_bytes, bpp, row + 1),
{
    reveal(image_state);
    lemma_places(row, row_bytes);
    let image = before.take(row * row_bytes);
    if row > 0 {
        assert(row_above(image, row_bytes, row) =~= before.subrange(
            row * row_bytes - row_bytes,
            row * row_bytes,
        ));
    }
    assert(after.take(row * row_bytes + row_bytes) =~= image + after.subrange(
        row * row_bytes,
        row * row_bytes + row_bytes,
    ));
    assert((row + 1) as nat - 1 == row);
    assert forall|k: int| record_at(row_bytes, row + 1) <= k < raw.len() implies #[trigger] after[k]
        == raw[k] by {
        assert(before[k] == raw[k]);
    }
}

#[verifier::rlimit(30)]
fn unfilter_image_bpp<const BPP: usize>(buffer: &mut [u8], row_bytes: usize, height: usize) -> (result:
    Result<(), usize>)
    requires
        1 <= BPP <= 8,
        record_at(row_bytes as nat, height as int) <= old(buffer)@.len(),
    ensures
        final(buffer)@.len() == old(buffer)@.len(),
        match result {
            Ok(()) => unfiltered_rows(old(buffer)@, row_bytes as nat, BPP as nat, height as nat)
                == Ok::<Seq<u8>, int>(final(buffer)@.take(height * row_bytes)),
            Err(row) => unfiltered_rows(old(buffer)@, row_bytes as nat, BPP as nat, height as nat)
                == Err::<Seq<u8>, int>(row as int),
        },
        forall|k: int|
            record_at(row_bytes as nat, height as int) <= k < old(buffer)@.len()
                ==> #[trigger] final(buffer)@[k] == old(buffer)@[k],
{
    let total: usize = buffer.len();
    let ghost raw = buffer@;
    let ghost rb = row_bytes as nat;
    let ghost bpp = BPP as nat;
    let mut row: usize = 0;
    let mut source: usize = 1;
    let mut dest: usize = 0;
    proof {
        reveal(image_state);
        assert(0 * row_bytes == 0) by (nonlinear_arith);
        assert(0 * (1 + row_bytes) == 0) by (nonlinear_arith);
        assert(raw.take(0) =~= Seq::<u8>::empty());
    }
    while row < height
        invariant
            1 <= BPP <= 8,
            bpp == BPP,
            rb == row_bytes,
            row <= height,
            total == buffer@.len() == raw.len(),
            raw == old(buffer)@,
            record_at(rb, height as int) <= raw.len(),
            row < height ==> source == record_at(rb, row as int) + 1,
            row < height ==> dest == row * rb,
            image_state(buffer@, raw, rb, bpp, row as int),
        decreases height - row,
    {
        proof {
            lemma_places(row as int, rb);
            lemma_record_order(rb, row + 1, height as int);
            lemma_record_order(rb, row as int, height as int);
            assert(buffer@[source - 1] == raw[source - 1]) by {
                reveal(image_state);
            }
        }
        let filter: Filter = match Filter::from_byte(buffer[source - 1]) {
            Some(filter) => filter,
            None => {
                proof {
                    reveal(image_state);
                    assert((row + 1) as nat - 1 == row);
                    lemma_rows_err(raw, rb, bpp, (row + 1) as nat, height as nat);
                }
                return Err(row);
            },
        };
        let ghost start = buffer@;
        // Two adjacent `Paeth` rows are worth reconstructing together; see
        // [`unfilter_paeth_pair`]. The first row of the image is excluded because it has no
        // row above it, and a row whose successor uses a different filter falls through to
        // the single-row path, which the next iteration then takes for the successor.
        if filter == Filter::Paeth && row > 0 && height - row > 1 {
            proof {
                lemma_places(row + 1, rb);
                lemma_record_order(rb, row + 2, height as int);
            }
            let next: usize = source + row_bytes + 1;
            if buffer[next - 1] == Filter::Paeth.to_byte() {
                // In that order: compacting the second row first would overwrite the tail of
                // the first row's filtered bytes, which are still where they were written.
                move_down(buffer, source, dest, row_bytes);
                let ghost one = buffer@;
                move_down(buffer, next, dest + row_bytes, row_bytes);
                let ghost two = buffer@;
                proof {
                    reveal(image_state);
                    assert(raw[next - 1] == start[next - 1]);
                    assert(one.subrange(next as int, next + row_bytes) =~= raw.subrange(
                        next as int,
                        next + row_bytes,
                    ));
                    assert(start.subrange(source as int, source + row_bytes) =~= raw.subrange(
                        source as int,
                        source + row_bytes,
                    ));
                    assert(two.subrange(dest as int, dest + row_bytes) =~= one.subrange(
                        dest as int,
                        dest + row_bytes,
                    ));
                    assert(two.subrange(dest - row_bytes, dest as int) =~= start.subrange(
                        dest - row_bytes,
                        dest as int,
                    ));
                    assert(dest + row_bytes + row_bytes == dest + 2 * row_bytes);
                }
                unfilter_paeth_pair::<BPP>(buffer, dest, row_bytes);
                proof {
                    let done = buffer@;
                    // The first of the two rows on its own.
                    let half = Seq::new(
                        raw.len(),
                        |k: int|
                            if k < dest + row_bytes {
                                done[k]
                            } else {
                                start[k]
                            },
                    );
                    assert(half.subrange(dest as int, dest + row_bytes) =~= done.subrange(
                        dest as int,
                        dest + row_bytes,
                    ));
                    lemma_image_row(start, half, raw, rb, bpp, row as int, Filter::Paeth);
                    assert(half.subrange(dest as int, dest + row_bytes) == done.subrange(
                        dest as int,
                        dest + row_bytes,
                    ));
                    lemma_image_row(half, done, raw, rb, bpp, row + 1, Filter::Paeth);
                }
                row = row + 2;
                if row < height {
                    proof {
                        lemma_record_order(rb, row + 1, height as int);
                        lemma_places(row as int, rb);
                    }
                    source = next + row_bytes + 1;
                    dest = dest + row_bytes + row_bytes;
                }
                continue;
            }
        }
        move_down(buffer, source, dest, row_bytes);
        let ghost one = buffer@;
        proof {
            reveal(image_state);
            assert(start.subrange(source as int, source + row_bytes) =~= raw.subrange(
                source as int,
                source + row_bytes,
            ));
            if row > 0 {
                assert(one.subrange(dest - row_bytes, dest as int) =~= start.subrange(
                    dest - row_bytes,
                    dest as int,
                ));
            }
        }
        unfilter_row::<BPP>(filter, buffer, dest, row_bytes, row == 0);
        proof {
            lemma_image_row(start, buffer@, raw, rb, bpp, row as int, filter);
        }
        row = row + 1;
        if row < height {
            proof {
                lemma_record_order(rb, row + 1, height as int);
                lemma_places(row as int, rb);
            }
            source = source + row_bytes + 1;
            dest = dest + row_bytes;
        }
    }
    proof {
        reveal(image_state);
    }
    Ok(())
}

} // verus!
