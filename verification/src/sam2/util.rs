//! Helpers shared by the segmentation modules.
use crate::binary32::Binary32;
use crate::layout::{coordinates_in_range, offset, offset_in_range, volume, Grid};
use vstd::prelude::*;

verus! {

/// `r` is the last position of a value of the greatest rank; zero where there is no value. Among
/// numbers this is the last of the greatest, and the two zeros are equal.
pub open spec fn is_argmax(values: Seq<Binary32>, r: int) -> bool {
    if values.len() == 0 {
        r == 0
    } else {
        &&& 0 <= r < values.len()
        &&& forall|i: int|
            0 <= i < values.len() ==> (#[trigger] values[i]).rank() <= values[r].rank()
        &&& forall|i: int|
            r < i < values.len() ==> (#[trigger] values[i]).rank() < values[r].rank()
    }
}

/// The position of the greatest value, the last of equals; defined for every pattern, numbers or
/// not.
pub fn argmax_f32(values: &[Binary32]) -> (r: usize)
    ensures
        is_argmax(values@, r as int),
{
    if values.len() == 0 {
        return 0;
    }
    let mut best: usize = 0;
    let mut i: usize = 1;
    while i < values.len()
        invariant
            1 <= i <= values@.len(),
            best < i,
            forall|k: int|
                0 <= k < i ==> (#[trigger] values@[k]).rank()
                    <= values@[best as int].rank(),
            forall|k: int|
                best < k < i ==> (#[trigger] values@[k]).rank()
                    < values@[best as int].rank(),
        decreases values@.len() - i,
    {
        if !values[best].ranks_above(&values[i]) {
            best = i;
        }
        i = i + 1;
    }
    best
}

/// There is one such position.
pub proof fn argmax_is_unique(values: Seq<Binary32>, a: int, b: int)
    requires
        is_argmax(values, a),
        is_argmax(values, b),
    ensures
        a == b,
{
    if values.len() > 0 {
        assert(values[a].rank() == values[b].rank());
    }
}

/// Among numbers the position is that of the numeric order: no value is greater, and every later
/// one is smaller.
pub proof fn argmax_is_numeric(values: Seq<Binary32>, r: int)
    requires
        values.len() > 0,
        is_argmax(values, r),
        forall|i: int| 0 <= i < values.len() ==> !(#[trigger] values[i]).nan(),
    ensures
        forall|i: int| 0 <= i < values.len() ==> (#[trigger] values[i]).at_most(values[r]),
        forall|i: int| r < i < values.len() ==> (#[trigger] values[i]).less(values[r]),
{
}

/// A name below a prefix: with a dot between the two, or the name alone where there is no prefix.
pub open spec fn joined(prefix: Seq<char>, leaf: Seq<char>) -> Seq<char> {
    if prefix.len() == 0 {
        leaf
    } else {
        prefix + seq!['.'] + leaf
    }
}

/// Join a prefix and a name with a dot; no leading dot where the prefix is empty.
pub fn join(prefix: &str, leaf: &str) -> (r: String)
    ensures
        r@ == joined(prefix@, leaf@),
{
    if prefix.is_empty() {
        return leaf.to_owned();
    }
    proof {
        reveal_strlit(".");
        assert("."@ =~= seq!['.']);
    }
    let mut r: String = prefix.to_owned();
    r.append(".");
    r.append(leaf);
    r
}

/// Joining is associative, so a path can be built from either end.
pub proof fn join_is_associative(a: Seq<char>, b: Seq<char>, c: Seq<char>)
    requires
        b.len() > 0,
    ensures
        joined(joined(a, b), c) == joined(a, joined(b, c)),
{
    if a.len() > 0 {
        assert(a + seq!['.'] + b + seq!['.'] + c =~= a + seq!['.'] + (b + seq!['.'] + c));
    }
}

/// The rows `start..end` of each map.
pub open spec fn rows_taken<T>(g: Grid<T>, start: int, end: int, r: Grid<T>) -> bool {
    &&& r.wf()
    &&& r.n == g.n
    &&& r.h == end - start
    &&& r.w == g.w
    &&& r.c == g.c
    &&& forall|i: int, y: int, x: int, k: int|
        r.holds(i, y, x, k) ==> #[trigger] r.at(i, y, x, k) == g.at(i, start + y, x, k)
}

/// Take a contiguous range along the second axis.
pub fn take_range<T: Copy>(g: &Grid<T>, start: usize, end: usize) -> (r: Grid<T>)
    requires
        g.wf(),
        0 < g.w,
        0 < g.c,
        start <= end <= g.h,
    ensures
        rows_taken(*g, start as int, end as int, r),
{
    let h: usize = end - start;
    let stored: usize = g.data.len();
    proof {
        let (n, gh, w, c) = (g.n as int, g.h as int, g.w as int, g.c as int);
        assert(0 <= n * h <= n * gh <= (n * gh) * w <= ((n * gh) * w) * c) by (nonlinear_arith)
            requires
                0 <= n,
                0 <= h <= gh,
                0 < w,
                0 < c,
        ;
        assert(0 <= (n * h) * w <= (n * gh) * w) by (nonlinear_arith)
            requires
                0 <= n * h <= n * gh,
                0 < w,
        ;
        assert(0 <= ((n * h) * w) * c <= ((n * gh) * w) * c) by (nonlinear_arith)
            requires
                0 <= (n * h) * w <= (n * gh) * w,
                0 < c,
        ;
    }
    let total: usize = g.n * h * g.w * g.c;
    let mut data: Vec<T> = Vec::new();
    let mut o: usize = 0;
    while o < total
        invariant
            o <= total,
            g.wf(),
            h == end - start,
            start <= end <= g.h,
            total == volume(g.n as int, h as int, g.w as int, g.c as int),
            data@.len() == o,
            forall|t: int|
                0 <= t < o ==> #[trigger] data@[t] == g.at(
                    t / (g.c as int) / (g.w as int) / (h as int),
                    start + (t / (g.c as int) / (g.w as int)) % (h as int),
                    (t / (g.c as int)) % (g.w as int),
                    t % (g.c as int),
                ),
        decreases total - o,
    {
        proof {
            coordinates_in_range(g.n as int, h as int, g.w as int, g.c as int, o as int);
        }
        let cell: usize = o / g.c;
        let row: usize = start + (cell / g.w) % h;
        let value: T = g.get(cell / g.w / h, row, cell % g.w, o % g.c);
        data.push(value);
        o = o + 1;
    }
    let r = Grid { n: g.n, h, w: g.w, c: g.c, data };
    proof {
        assert forall|i: int, y: int, x: int, k: int|
            r.holds(i, y, x, k) implies #[trigger] r.at(i, y, x, k) == g.at(
            i,
            start + y,
            x,
            k,
        ) by {
            offset_in_range(g.n as int, h as int, g.w as int, g.c as int, i, y, x, k);
            let o = offset(h as int, g.w as int, g.c as int, i, y, x, k);
            assert(r.data@[o] == g.at(i, start + y, x, k));
        }
    }
    r
}

/// Each row of a table several times in a row.
pub open spec fn rows_repeated<T>(
    t: Seq<T>,
    rows: int,
    columns: int,
    repeat: int,
    r: Seq<T>,
) -> bool {
    &&& r.len() == (rows * repeat) * columns
    &&& forall|i: int, j: int, k: int|
        0 <= i < rows && 0 <= j < repeat && 0 <= k < columns ==> #[trigger] r[(i * repeat + j)
            * columns + k] == t[i * columns + k]
}

proof fn position_is_row(rows: int, repeat: int, columns: int, o: int)
    requires
        0 < columns,
        0 < repeat,
        0 <= o < (rows * repeat) * columns,
    ensures
        0 <= o / columns / repeat < rows,
{
    vstd::arithmetic::div_mod::lemma_fundamental_div_mod(o, columns);
    let q = o / columns;
    assert(0 <= q < rows * repeat) by (nonlinear_arith)
        requires
            o == columns * q + o % columns,
            0 <= o % columns < columns,
            0 <= o < (rows * repeat) * columns,
    ;
    vstd::arithmetic::div_mod::lemma_fundamental_div_mod(q, repeat);
    assert(0 <= q / repeat < rows) by (nonlinear_arith)
        requires
            q == repeat * (q / repeat) + q % repeat,
            0 <= q % repeat < repeat,
            0 <= q < rows * repeat,
    ;
}

/// Repeat each row of a table of `columns` columns `repeat` times: row `i` lands in the rows from
/// `i * repeat` on.
pub fn repeat_rows<T: Copy>(t: &[T], rows: usize, columns: usize, repeat: usize) -> (r: Vec<T>)
    requires
        t@.len() == rows * columns,
        0 < columns,
        (rows * repeat) * columns <= usize::MAX,
    ensures
        rows_repeated(t@, rows as int, columns as int, repeat as int, r@),
{
    let stored: usize = t.len();
    let mut r: Vec<T> = Vec::new();
    proof {
        assert(0 <= rows * repeat <= (rows * repeat) * columns) by (nonlinear_arith)
            requires
                0 <= rows,
                0 <= repeat,
                0 < columns,
        ;
    }
    let total: usize = rows * repeat * columns;
    let mut o: usize = 0;
    while o < total
        invariant
            o <= total,
            0 < columns,
            t@.len() == rows * columns == stored,
            total == (rows * repeat) * columns,
            r@.len() == o,
            forall|p: int|
                0 <= p < o ==> #[trigger] r@[p] == t@[(p / (columns as int) / (repeat as int))
                    * columns + p % (columns as int)],
        decreases total - o,
    {
        proof {
            assert(volume(1, rows as int, repeat as int, columns as int) == (rows * repeat)
                * columns);
            coordinates_in_range(1, rows as int, repeat as int, columns as int, o as int);
            position_is_row(rows as int, repeat as int, columns as int, o as int);
        }
        let row: usize = o / columns / repeat;
        proof {
            let c = columns as int;
            assert(0 <= row < rows);
            assert(0 <= row * c && row * c + o as int % c < rows * c) by (nonlinear_arith)
                requires
                    0 <= row < rows,
                    0 <= o as int % c < c,
            ;
        }
        r.push(t[row * columns + o % columns]);
        o = o + 1;
    }
    proof {
        assert forall|i: int, j: int, k: int|
            0 <= i < rows && 0 <= j < repeat && 0 <= k < columns implies #[trigger] r@[(i * repeat
            + j) * columns + k] == t@[i * columns + k] by {
            offset_in_range(1, rows as int, repeat as int, columns as int, 0, i, j, k);
            assert(offset(rows as int, repeat as int, columns as int, 0, i, j, k) == (i * repeat
                + j) * columns + k);
            assert(volume(1, rows as int, repeat as int, columns as int) == total);
        }
    }
    r
}

/// The foreground value of a binary mask.
pub const FOREGROUND: u8 = 255;

/// Threshold logits into a binary mask: foreground where strictly positive.
pub fn threshold_mask(logits: &[Binary32]) -> (r: Vec<u8>)
    ensures
        r@.len() == logits@.len(),
        forall|i: int|
            0 <= i < logits@.len() ==> #[trigger] r@[i] == if (Binary32 { bits: 0 }).less(
                logits@[i],
            ) {
                FOREGROUND
            } else {
                0
            },
        forall|i: int|
            0 <= i < logits@.len() ==> #[trigger] r@[i] == if 0 < logits@[i].bits <= 0x7f80_0000 {
                255u8
            } else {
                0u8
            },
{
    let zero = Binary32 { bits: 0 };
    let mut r: Vec<u8> = Vec::new();
    let mut i: usize = 0;
    while i < logits.len()
        invariant
            i <= logits@.len(),
            zero == (Binary32 { bits: 0 }),
            r@.len() == i,
            forall|j: int|
                0 <= j < i ==> #[trigger] r@[j] == if zero.less(logits@[j]) {
                    FOREGROUND
                } else {
                    0
                },
        decreases logits@.len() - i,
    {
        if logits[i].gt(&zero) {
            r.push(FOREGROUND);
        } else {
            r.push(0);
        }
        i = i + 1;
    }
    r
}

/// Of rows repeated in place, the copies of one row stand next to each other: row `q` is a copy of
/// row `q / repeat`.
pub proof fn copies_stand_together<T>(
    t: Seq<T>,
    rows: int,
    columns: int,
    repeat: int,
    r: Seq<T>,
    q: int,
    k: int,
)
    requires
        rows_repeated(t, rows, columns, repeat, r),
        0 < repeat,
        0 <= q < rows * repeat,
        0 <= k < columns,
    ensures
        r[q * columns + k] == t[(q / repeat) * columns + k],
{
    let (i, j) = (q / repeat, q % repeat);
    vstd::arithmetic::div_mod::lemma_fundamental_div_mod(q, repeat);
    assert(repeat * i == i * repeat) by (nonlinear_arith);
    assert(0 <= i < rows) by (nonlinear_arith)
        requires
            0 <= q < rows * repeat,
            q == i * repeat + j,
            0 <= j < repeat,
    ;
    assert(r[(i * repeat + j) * columns + k] == t[i * columns + k]);
}

/// Taking all rows takes everything as it is.
pub proof fn all_rows_are_everything<T>(g: Grid<T>, r: Grid<T>)
    requires
        g.wf(),
        rows_taken(g, 0, g.h as int, r),
    ensures
        r.data@ == g.data@,
{
    crate::layout::same_values_same_data(r, g);
}

/// Rows taken from some point on start with the row at that point and go on in order.
pub proof fn rows_are_taken_in_order<T>(
    g: Grid<T>,
    start: int,
    end: int,
    r: Grid<T>,
    i: int,
    y: int,
    x: int,
    k: int,
)
    requires
        rows_taken(g, start, end, r),
        0 <= i < g.n,
        start <= y < end,
        0 <= x < g.w,
        0 <= k < g.c,
    ensures
        r.h == end - start,
        r.at(i, y - start, x, k) == g.at(i, y, x, k),
{
    assert(r.holds(i, y - start, x, k));
}

/// Names are joined by a dot, and a name below nothing stands alone.
pub proof fn names_are_joined_by_a_dot(prefix: Seq<char>, leaf: Seq<char>)
    ensures
        prefix.len() > 0 ==> joined(prefix, leaf) == prefix + "."@ + leaf,
        prefix.len() == 0 ==> joined(prefix, leaf) == leaf,
{
    reveal_strlit(".");
    assert("."@ =~= seq!['.']);
}

} // verus!
