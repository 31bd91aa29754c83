//! Rearrangement of channels-last feature maps.
//!
//! A map with `n` images of `h` rows, `w` columns and `c` channels is stored row-major with the
//! channel varying fastest. The functions here only move values.
use vstd::prelude::*;

verus! {

/// A channels-last batch of feature maps.
pub struct Grid<T> {
    pub n: usize,
    pub h: usize,
    pub w: usize,
    pub c: usize,
    pub data: Vec<T>,
}

/// The position of a value in row-major order.
pub open spec fn offset(h: int, w: int, c: int, i: int, y: int, x: int, k: int) -> int {
    ((i * h + y) * w + x) * c + k
}

/// The number of values of a batch.
pub open spec fn volume(n: int, h: int, w: int, c: int) -> int {
    ((n * h) * w) * c
}

impl<T> Grid<T> {
    pub open spec fn wf(&self) -> bool {
        self.data@.len() == volume(self.n as int, self.h as int, self.w as int, self.c as int)
    }

    /// The value of image `i` at row `y`, column `x`, channel `k`.
    pub open spec fn at(&self, i: int, y: int, x: int, k: int) -> T {
        self.data@[offset(self.h as int, self.w as int, self.c as int, i, y, x, k)]
    }

    /// The coordinates lie within the batch.
    pub open spec fn holds(&self, i: int, y: int, x: int, k: int) -> bool {
        0 <= i < self.n && 0 <= y < self.h && 0 <= x < self.w && 0 <= k < self.c
    }
}

/// The offset of coordinates in range lies in range, and the coordinates can be read back from it.
pub proof fn offset_in_range(n: int, h: int, w: int, c: int, i: int, y: int, x: int, k: int)
    requires
        0 <= i < n,
        0 <= y < h,
        0 <= x < w,
        0 <= k < c,
    ensures
        0 <= offset(h, w, c, i, y, x, k) < volume(n, h, w, c),
        offset(h, w, c, i, y, x, k) % c == k,
        offset(h, w, c, i, y, x, k) / c == (i * h + y) * w + x,
        ((i * h + y) * w + x) % w == x,
        ((i * h + y) * w + x) / w == i * h + y,
        (i * h + y) % h == y,
        (i * h + y) / h == i,
{
    row_in_range(n, h, i, y);
    row_in_range(n * h, w, i * h + y, x);
    row_in_range((n * h) * w, c, (i * h + y) * w + x, k);
}

proof fn row_in_range(n: int, h: int, i: int, y: int)
    requires
        0 <= i < n,
        0 <= y < h,
    ensures
        0 <= i * h + y < n * h,
        (i * h + y) % h == y,
        (i * h + y) / h == i,
{
    assert(0 <= i * h + y < n * h) by (nonlinear_arith)
        requires
            0 <= i < n,
            0 <= y < h,
    ;
    vstd::arithmetic::div_mod::lemma_fundamental_div_mod_converse(i * h + y, h, i, y);
}

/// The coordinates of a position in row-major order.
pub proof fn coordinates_in_range(n: int, h: int, w: int, c: int, o: int)
    requires
        0 <= n,
        0 <= h,
        0 <= w,
        0 <= c,
        0 <= o < volume(n, h, w, c),
    ensures
        c > 0 && w > 0 && h > 0,
        0 <= o % c < c,
        0 <= (o / c) % w < w,
        0 <= (o / c / w) % h < h,
        0 <= o / c / w / h < n,
        o == offset(h, w, c, o / c / w / h, (o / c / w) % h, (o / c) % w, o % c),
{
    let nhw = (n * h) * w;
    let nh = n * h;
    position_splits(nhw, c, o);
    position_splits(nh, w, o / c);
    position_splits(n, h, o / c / w);
}

proof fn position_splits(rows: int, c: int, o: int)
    requires
        0 <= c,
        0 <= o < rows * c,
    ensures
        c > 0,
        0 <= o % c < c,
        0 <= o / c < rows,
        o == (o / c) * c + o % c,
{
    assert(c > 0) by (nonlinear_arith)
        requires
            0 <= c,
            0 <= o < rows * c,
    ;
    vstd::arithmetic::div_mod::lemma_fundamental_div_mod(o, c);
    assert(o == (o / c) * c + o % c) by (nonlinear_arith)
        requires
            o == c * (o / c) + o % c,
    ;
    assert(0 <= o / c < rows) by (nonlinear_arith)
        requires
            0 <= o < rows * c,
            c > 0,
            o == (o / c) * c + o % c,
            0 <= o % c < c,
    ;
}

/// Batches of one shape that hold the same value at all coordinates hold the same data.
pub proof fn same_values_same_data<T>(a: Grid<T>, b: Grid<T>)
    requires
        a.wf(),
        b.wf(),
        a.n == b.n,
        a.h == b.h,
        a.w == b.w,
        a.c == b.c,
        forall|i: int, y: int, x: int, k: int|
            a.holds(i, y, x, k) ==> #[trigger] a.at(i, y, x, k) == b.at(i, y, x, k),
    ensures
        a.data@ == b.data@,
{
    let (n, h, w, c) = (a.n as int, a.h as int, a.w as int, a.c as int);
    assert forall|o: int| 0 <= o < a.data@.len() implies a.data@[o] == b.data@[o] by {
        coordinates_in_range(n, h, w, c, o);
        assert(a.at(o / c / w / h, (o / c / w) % h, (o / c) % w, o % c) == b.at(
            o / c / w / h,
            (o / c / w) % h,
            (o / c) % w,
            o % c,
        ));
    }
    assert(a.data@ =~= b.data@);
}

/// The padding that brings a length to a multiple of a window.
pub open spec fn padding(len: int, window: int) -> int {
    (window - len % window) % window
}

/// The padded length is the smallest multiple of the window that is no shorter.
pub proof fn padding_is_least(len: int, window: int)
    requires
        0 <= len,
        0 < window,
    ensures
        0 <= padding(len, window) < window,
        (len + padding(len, window)) % window == 0,
        forall|p: int|
            0 <= p < padding(len, window) ==> #[trigger] ((len + p) % window) != 0,
        len + padding(len, window) == ((len + padding(len, window)) / window) * window,
{
    let r = len % window;
    let q = len / window;
    vstd::arithmetic::div_mod::lemma_fundamental_div_mod(len, window);
    let p = padding(len, window);
    if r == 0 {
        vstd::arithmetic::div_mod::lemma_mod_self_0(window);
        assert(p == 0);
        assert(len == q * window + 0) by (nonlinear_arith)
            requires
                len == window * q + r,
                r == 0,
        ;
        vstd::arithmetic::div_mod::lemma_fundamental_div_mod_converse(len, window, q, 0);
    } else {
        vstd::arithmetic::div_mod::lemma_small_mod((window - r) as nat, window as nat);
        assert(p == window - r);
        assert(len + p == (q + 1) * window + 0) by (nonlinear_arith)
            requires
                len == window * q + r,
                p == window - r,
        ;
        vstd::arithmetic::div_mod::lemma_fundamental_div_mod_converse(
            len + p,
            window,
            q + 1,
            0,
        );
        assert forall|t: int| 0 <= t < p implies #[trigger] ((len + t) % window) != 0 by {
            assert(len + t == q * window + (r + t)) by (nonlinear_arith)
                requires
                    len == window * q + r,
            ;
            vstd::arithmetic::div_mod::lemma_fundamental_div_mod_converse(
                len + t,
                window,
                q,
                r + t,
            );
        }
    }
}

/// The padding that brings a length to a multiple of a window.
pub fn padding_for(len: usize, window: usize) -> (r: usize)
    requires
        0 < window,
    ensures
        r == padding(len as int, window as int),
        r < window,
{
    (window - len % window) % window
}

/// The windows of a batch: `r` holds, per image, the windows in row-major order; positions beyond
/// the image hold `zero`.
pub open spec fn partitioned<T>(g: Grid<T>, window: int, zero: T, r: Grid<T>) -> bool {
    let (rows, cols) = (
        (g.h + padding(g.h as int, window)) / window,
        (g.w + padding(g.w as int, window)) / window,
    );
    &&& r.wf()
    &&& r.n == (g.n * rows) * cols
    &&& r.h == window
    &&& r.w == window
    &&& r.c == g.c
    &&& forall|i: int, p: int, q: int, y: int, x: int, k: int|
        0 <= i < g.n && 0 <= p < rows && 0 <= q < cols && 0 <= y < window && 0 <= x < window && 0
            <= k < g.c ==> #[trigger] r.at((i * rows + p) * cols + q, y, x, k) == if p * window + y
            < g.h && q * window + x < g.w {
            g.at(i, p * window + y, q * window + x, k)
        } else {
            zero
        }
}

/// The batch stitched together from windows over a padded map of `hp` rows and `wp` columns,
/// cropped to `h` rows and `w` columns.
pub open spec fn stitched<T>(
    r: Grid<T>,
    window: int,
    hp: int,
    wp: int,
    h: int,
    w: int,
    g: Grid<T>,
) -> bool {
    let (rows, cols) = (hp / window, wp / window);
    &&& g.wf()
    &&& g.n == r.n as int / (rows * cols)
    &&& g.h == h
    &&& g.w == w
    &&& g.c == r.c
    &&& forall|i: int, y: int, x: int, k: int|
        g.holds(i, y, x, k) ==> #[trigger] g.at(i, y, x, k) == r.at(
            (i * rows + y / window) * cols + x / window,
            y % window,
            x % window,
            k,
        )
}

/// Stitching the windows of a batch gives back the batch.
pub proof fn windows_round_trip<T>(g: Grid<T>, window: int, zero: T, r: Grid<T>, back: Grid<T>)
    requires
        0 < window,
        0 < g.h,
        0 < g.w,
        g.wf(),
        partitioned(g, window, zero, r),
        stitched(
            r,
            window,
            g.h + padding(g.h as int, window),
            g.w + padding(g.w as int, window),
            g.h as int,
            g.w as int,
            back,
        ),
    ensures
        back.n == g.n,
        back.h == g.h,
        back.w == g.w,
        back.c == g.c,
        back.data@ == g.data@,
{
    let (hp, wp) = (g.h + padding(g.h as int, window), g.w + padding(g.w as int, window));
    padding_is_least(g.h as int, window);
    padding_is_least(g.w as int, window);
    let (rows, cols) = (hp / window, wp / window);
    assert(rows > 0) by (nonlinear_arith)
        requires
            hp == rows * window,
            hp > 0,
            window > 0,
    ;
    assert(cols > 0) by (nonlinear_arith)
        requires
            wp == cols * window,
            wp > 0,
            window > 0,
    ;
    assert(rows * cols > 0) by (nonlinear_arith)
        requires
            rows > 0,
            cols > 0,
    ;
    assert(r.n == g.n * (rows * cols)) by (nonlinear_arith)
        requires
            r.n == (g.n * rows) * cols,
    ;
    vstd::arithmetic::div_mod::lemma_div_multiples_vanish(g.n as int, rows * cols);
    assert(g.n * (rows * cols) == (rows * cols) * g.n) by (nonlinear_arith);
    assert forall|i: int, y: int, x: int, k: int|
        back.holds(i, y, x, k) implies #[trigger] back.at(i, y, x, k) == g.at(i, y, x, k) by {
        let (p, q) = (y / window, x / window);
        vstd::arithmetic::div_mod::lemma_fundamental_div_mod(y, window);
        vstd::arithmetic::div_mod::lemma_fundamental_div_mod(x, window);
        assert(p * window + y % window == y && q * window + x % window == x) by (nonlinear_arith)
            requires
                y == window * p + y % window,
                x == window * q + x % window,
        ;
        assert(0 <= p < rows) by (nonlinear_arith)
            requires
                0 <= y < hp,
                hp == rows * window,
                p * window + y % window == y,
                0 <= y % window < window,
                window > 0,
        ;
        assert(0 <= q < cols) by (nonlinear_arith)
            requires
                0 <= x < wp,
                wp == cols * window,
                q * window + x % window == x,
                0 <= x % window < window,
                window > 0,
        ;
        assert(r.at((i * rows + p) * cols + q, y % window, x % window, k) == g.at(i, y, x, k));
    }
    same_values_same_data(back, g);
}

/// The partial sums of an offset never exceed it.
proof fn offset_grows(n: int, h: int, w: int, c: int, i: int, y: int, x: int, k: int)
    requires
        0 <= i < n,
        0 <= y < h,
        0 <= x < w,
        0 <= k < c,
    ensures
        0 <= i * h <= i * h + y <= (i * h + y) * w <= (i * h + y) * w + x <= ((i * h + y) * w + x)
            * c <= offset(h, w, c, i, y, x, k) < volume(n, h, w, c),
{
    offset_in_range(n, h, w, c, i, y, x, k);
    assert(0 <= i * h) by (nonlinear_arith)
        requires
            0 <= i,
            0 < h,
    ;
    let row = i * h + y;
    assert(row <= row * w) by (nonlinear_arith)
        requires
            0 <= row,
            1 <= w,
    ;
    let cell = row * w + x;
    assert(cell <= cell * c) by (nonlinear_arith)
        requires
            0 <= cell,
            1 <= c,
    ;
}

impl<T: Copy> Grid<T> {
    /// The value at coordinates.
    pub fn get(&self, i: usize, y: usize, x: usize, k: usize) -> (r: T)
        requires
            self.wf(),
            self.holds(i as int, y as int, x as int, k as int),
        ensures
            r == self.at(i as int, y as int, x as int, k as int),
    {
        proof {
            offset_grows(
                self.n as int,
                self.h as int,
                self.w as int,
                self.c as int,
                i as int,
                y as int,
                x as int,
                k as int,
            );
        }
        let total: usize = self.data.len();
        self.data[((i * self.h + y) * self.w + x) * self.c + k]
    }
}

/// The value at position `o` of the windows of a batch.
spec fn windowed_value<T>(g: Grid<T>, window: int, rows: int, cols: int, zero: T, o: int) -> T {
    let (k, x, y) = (o % (g.c as int), (o / (g.c as int)) % window, (o / (g.c as int) / window)
        % window);
    let b = o / (g.c as int) / window / window;
    let (q, p, i) = (b % cols, (b / cols) % rows, b / cols / rows);
    if p * window + y < g.h && q * window + x < g.w {
        g.at(i, p * window + y, q * window + x, k)
    } else {
        zero
    }
}

/// Split a batch into square windows, padding with `zero`; returns the windows and the padded
/// height and width.
pub fn window_partition<T: Copy>(g: &Grid<T>, window: usize, zero: T) -> (r: (
    Grid<T>,
    (usize, usize),
))
    requires
        g.wf(),
        0 < g.n,
        0 < g.h,
        0 < g.w,
        0 < g.c,
        0 < window,
        g.h + window <= usize::MAX,
        g.w + window <= usize::MAX,
        volume(
            g.n as int,
            g.h + padding(g.h as int, window as int),
            g.w + padding(g.w as int, window as int),
            g.c as int,
        ) <= usize::MAX,
    ensures
        partitioned(*g, window as int, zero, r.0),
        r.1.0 == g.h + padding(g.h as int, window as int),
        r.1.1 == g.w + padding(g.w as int, window as int),
{
    let hp: usize = g.h + padding_for(g.h, window);
    let wp: usize = g.w + padding_for(g.w, window);
    let rows: usize = hp / window;
    let cols: usize = wp / window;
    proof {
        padding_is_least(g.h as int, window as int);
        padding_is_least(g.w as int, window as int);
        let win = window as int;
        assert(rows > 0) by (nonlinear_arith)
            requires
                hp == rows * win,
                hp > 0,
                win > 0,
        ;
        assert(cols > 0) by (nonlinear_arith)
            requires
                wp == cols * win,
                wp > 0,
                win > 0,
        ;
        let (n, c) = (g.n as int, g.c as int);
        let b = (n * rows) * cols;
        assert(((n * hp) * wp) * c == ((b * win) * win) * c) by (nonlinear_arith)
            requires
                hp == rows * win,
                wp == cols * win,
                b == (n * rows) * cols,
        ;
        assert(0 < n * rows <= b <= b * win <= (b * win) * win <= ((b * win) * win) * c)
            by (nonlinear_arith)
            requires
                b == (n * rows) * cols,
                n > 0,
                rows > 0,
                cols > 0,
                win > 0,
                c > 0,
        ;
    }
    let count: usize = g.n * rows * cols;
    let total: usize = count * window * window * g.c;
    let mut data: Vec<T> = Vec::new();
    let mut o: usize = 0;
    while o < total
        invariant
            o <= total,
            g.wf(),
            0 < window,
            0 < rows,
            0 < cols,
            0 < g.c,
            count == (g.n * rows) * cols,
            total == volume(count as int, window as int, window as int, g.c as int),
            hp == rows * window,
            wp == cols * window,
            data@.len() == o,
            forall|t: int|
                0 <= t < o ==> #[trigger] data@[t] == windowed_value(
                    *g,
                    window as int,
                    rows as int,
                    cols as int,
                    zero,
                    t,
                ),
        decreases total - o,
    {
        proof {
            coordinates_in_range(
                count as int,
                window as int,
                window as int,
                g.c as int,
                o as int,
            );
        }
        let k: usize = o % g.c;
        let cell: usize = o / g.c;
        let x: usize = cell % window;
        let y: usize = (cell / window) % window;
        let b: usize = cell / window / window;
        proof {
            position_splits((g.n * rows) as int, cols as int, b as int);
            position_splits(g.n as int, rows as int, b as int / cols as int);
        }
        let q: usize = b % cols;
        let p: usize = (b / cols) % rows;
        let i: usize = b / cols / rows;
        proof {
            assert(p * window + y < hp) by (nonlinear_arith)
                requires
                    0 <= p < rows,
                    0 <= y < window,
                    hp == rows * window,
            ;
            assert(q * window + x < wp) by (nonlinear_arith)
                requires
                    0 <= q < cols,
                    0 <= x < window,
                    wp == cols * window,
            ;
        }
        let row: usize = p * window + y;
        let col: usize = q * window + x;
        let value: T = if row < g.h && col < g.w {
            g.get(i, row, col, k)
        } else {
            zero
        };
        data.push(value);
        o = o + 1;
    }
    let r = Grid { n: count, h: window, w: window, c: g.c, data };
    proof {
        let (win, c) = (window as int, g.c as int);
        let (nr, nc) = (rows as int, cols as int);
        assert forall|i: int, p: int, q: int, y: int, x: int, k: int|
            0 <= i < g.n && 0 <= p < nr && 0 <= q < nc && 0 <= y < win && 0 <= x < win && 0 <= k
                < c implies #[trigger] r.at((i * nr + p) * nc + q, y, x, k) == if p * win + y < g.h
            && q * win + x < g.w {
            g.at(i, p * win + y, q * win + x, k)
        } else {
            zero
        } by {
            let b = (i * nr + p) * nc + q;
            row_in_range(g.n as int, nr, i, p);
            row_in_range(g.n * nr, nc, i * nr + p, q);
            offset_in_range(count as int, win, win, c, b, y, x, k);
            let o = offset(win, win, c, b, y, x, k);
            assert(r.data@[o] == windowed_value(*g, win, nr, nc, zero, o));
        }
    }
    (r, (hp, wp))
}

/// The value at position `o` of the stitched batch.
spec fn stitched_value<T>(
    r: Grid<T>,
    window: int,
    rows: int,
    cols: int,
    h: int,
    w: int,
    o: int,
) -> T {
    let c = r.c as int;
    let (k, x, y, i) = (o % c, (o / c) % w, (o / c / w) % h, o / c / w / h);
    r.at((i * rows + y / window) * cols + x / window, y % window, x % window, k)
}

/// Stitch windows back together, dropping the padding.
pub fn window_unpartition<T: Copy>(
    r: &Grid<T>,
    window: usize,
    pad_hw: (usize, usize),
    hw: (usize, usize),
) -> (g: Grid<T>)
    requires
        r.wf(),
        0 < window,
        r.h == window,
        r.w == window,
        0 < r.c,
        pad_hw.0 as int % window as int == 0,
        pad_hw.1 as int % window as int == 0,
        0 < hw.0 <= pad_hw.0,
        0 < hw.1 <= pad_hw.1,
        r.n as int % ((pad_hw.0 / window) * (pad_hw.1 / window)) == 0,
    ensures
        stitched(
            *r,
            window as int,
            pad_hw.0 as int,
            pad_hw.1 as int,
            hw.0 as int,
            hw.1 as int,
            g,
        ),
{
    let rows: usize = pad_hw.0 / window;
    let cols: usize = pad_hw.1 / window;
    let (h, w): (usize, usize) = hw;
    let stored: usize = r.data.len();
    let ghost (win, nr, nc, c) = (window as int, rows as int, cols as int, r.c as int);
    let ghost per = nr * nc;
    let ghost batch = r.n as int / per;
    proof {
        vstd::arithmetic::div_mod::lemma_fundamental_div_mod(pad_hw.0 as int, win);
        vstd::arithmetic::div_mod::lemma_fundamental_div_mod(pad_hw.1 as int, win);
        assert(pad_hw.0 == nr * win && pad_hw.1 == nc * win) by (nonlinear_arith)
            requires
                pad_hw.0 == win * nr,
                pad_hw.1 == win * nc,
        ;
        assert(nr > 0 && nc > 0) by (nonlinear_arith)
            requires
                0 < pad_hw.0 == nr * win,
                0 < pad_hw.1 == nc * win,
                win > 0,
        ;
        assert(per > 0) by (nonlinear_arith)
            requires
                per == nr * nc,
                nr > 0,
                nc > 0,
        ;
        vstd::arithmetic::div_mod::lemma_fundamental_div_mod(r.n as int, per);
        assert(r.n == (batch * nr) * nc) by (nonlinear_arith)
            requires
                r.n == per * batch,
                per == nr * nc,
        ;
        assert(0 <= batch) by (nonlinear_arith)
            requires
                r.n == per * batch,
                per > 0,
        ;
        // The stitched batch is no larger than the windows it comes from.
        assert(per <= stored || batch == 0) by {
            if batch > 0 {
                assert(per <= per * batch && r.n <= r.n * win && r.n * win <= (r.n * win) * win && (
                r.n * win) * win <= ((r.n * win) * win) * c) by (nonlinear_arith)
                    requires
                        per > 0,
                        batch > 0,
                        win > 0,
                        c > 0,
                        r.n >= 0,
                ;
            }
        }
        assert(((batch * nr) * nc) * win * win * c == ((batch * (nr * win)) * (nc * win)) * c)
            by (nonlinear_arith);
        assert(volume(batch, h as int, w as int, c) <= stored) by {
            let (hp, wp) = (nr * win, nc * win);
            assert(batch * h <= batch * hp) by (nonlinear_arith)
                requires
                    0 <= batch,
                    h <= hp,
            ;
            assert(0 <= batch * h) by (nonlinear_arith)
                requires
                    0 <= batch,
            ;
            assert((batch * h) * w <= (batch * hp) * wp) by (nonlinear_arith)
                requires
                    0 <= batch * h <= batch * hp,
                    0 <= w <= wp,
            ;
            assert(((batch * h) * w) * c <= ((batch * hp) * wp) * c) by (nonlinear_arith)
                requires
                    (batch * h) * w <= (batch * hp) * wp,
                    0 < c,
            ;
            assert(((r.n * win) * win) * c == ((batch * hp) * wp) * c);
        }
        assert(0 <= batch * h <= (batch * h) * w <= ((batch * h) * w) * c) by (nonlinear_arith)
            requires
                0 <= batch,
                0 < h,
                0 < w,
                0 < c,
        ;
    }
    let per_image: usize = if r.n == 0 {
        1
    } else {
        proof {
            if batch == 0 {
                assert(per * batch == 0) by (nonlinear_arith)
                    requires
                        batch == 0,
                ;
            }
        }
        rows * cols
    };
    let n: usize = r.n / per_image;
    proof {
        if r.n == 0 {
            assert(batch == 0) by (nonlinear_arith)
                requires
                    r.n == 0,
                    r.n == per * batch,
                    per > 0,
            ;
        }
        assert(n == batch);
    }
    let total: usize = n * h * w * r.c;
    let mut data: Vec<T> = Vec::new();
    let mut o: usize = 0;
    while o < total
        invariant
            o <= total,
            r.wf(),
            0 < window,
            r.h == window,
            r.w == window,
            0 < h <= rows * window,
            0 < w <= cols * window,
            r.n == (n * rows) * cols,
            stored == r.data@.len(),
            total == volume(n as int, h as int, w as int, r.c as int),
            data@.len() == o,
            forall|t: int|
                0 <= t < o ==> #[trigger] data@[t] == stitched_value(
                    *r,
                    window as int,
                    rows as int,
                    cols as int,
                    h as int,
                    w as int,
                    t,
                ),
        decreases total - o,
    {
        proof {
            coordinates_in_range(n as int, h as int, w as int, r.c as int, o as int);
        }
        let k: usize = o % r.c;
        let cell: usize = o / r.c;
        let x: usize = cell % w;
        let y: usize = (cell / w) % h;
        let i: usize = cell / w / h;
        let p: usize = y / window;
        let q: usize = x / window;
        proof {
            position_splits(rows as int, window as int, y as int);
            position_splits(cols as int, window as int, x as int);
            row_in_range(n as int, rows as int, i as int, p as int);
            row_in_range(n * rows, cols as int, i * rows + p, q as int);
            offset_grows(n as int, rows as int, cols as int, 1, i as int, p as int, q as int, 0);
        }
        let b: usize = (i * rows + p) * cols + q;
        let value: T = r.get(b, y % window, x % window, k);
        data.push(value);
        o = o + 1;
    }
    let g = Grid { n, h, w, c: r.c, data };
    proof {
        assert forall|i: int, y: int, x: int, k: int|
            g.holds(i, y, x, k) implies #[trigger] g.at(i, y, x, k) == r.at(
            (i * nr + y / win) * nc + x / win,
            y % win,
            x % win,
            k,
        ) by {
            offset_in_range(n as int, h as int, w as int, c, i, y, x, k);
            let o = offset(h as int, w as int, c, i, y, x, k);
            assert(g.data@[o] == stitched_value(*r, win, nr, nc, h as int, w as int, o));
        }
    }
    g
}

/// The leading rows and columns of each map.
pub open spec fn cropped<T>(g: Grid<T>, h: int, w: int, r: Grid<T>) -> bool {
    &&& r.wf()
    &&& r.n == g.n
    &&& r.h == h
    &&& r.w == w
    &&& r.c == g.c
    &&& forall|i: int, y: int, x: int, k: int|
        r.holds(i, y, x, k) ==> #[trigger] r.at(i, y, x, k) == g.at(i, y, x, k)
}

/// Keep the leading `h` rows and `w` columns of each map.
pub fn crop_hw<T: Copy>(g: &Grid<T>, h: usize, w: usize) -> (r: Grid<T>)
    requires
        g.wf(),
        0 < g.w,
        0 < g.c,
        h <= g.h,
        w <= g.w,
    ensures
        cropped(*g, h as int, w as int, r),
{
    let stored: usize = g.data.len();
    proof {
        let (n, gh, gw, c) = (g.n as int, g.h as int, g.w as int, g.c as int);
        assert(0 <= n * h <= n * gh <= (n * gh) * gw <= ((n * gh) * gw) * c) by (nonlinear_arith)
            requires
                0 <= n,
                0 <= h <= gh,
                0 < gw,
                0 < c,
        ;
        assert(0 <= (n * h) * w <= (n * gh) * gw) by (nonlinear_arith)
            requires
                0 <= n * h <= n * gh,
                0 <= w <= gw,
        ;
        assert(0 <= ((n * h) * w) * c <= ((n * gh) * gw) * c) by (nonlinear_arith)
            requires
                0 <= (n * h) * w <= (n * gh) * gw,
                0 < c,
        ;
    }
    let total: usize = g.n * h * w * g.c;
    let mut data: Vec<T> = Vec::new();
    let mut o: usize = 0;
    while o < total
        invariant
            o <= total,
            g.wf(),
            h <= g.h,
            w <= g.w,
            total == volume(g.n as int, h as int, w as int, g.c as int),
            data@.len() == o,
            forall|t: int|
                0 <= t < o ==> #[trigger] data@[t] == g.at(
                    t / (g.c as int) / (w as int) / (h as int),
                    (t / (g.c as int) / (w as int)) % (h as int),
                    (t / (g.c as int)) % (w as int),
                    t % (g.c as int),
                ),
        decreases total - o,
    {
        proof {
            coordinates_in_range(g.n as int, h as int, w as int, g.c as int, o as int);
        }
        let cell: usize = o / g.c;
        let value: T = g.get(cell / w / h, (cell / w) % h, cell % w, o % g.c);
        data.push(value);
        o = o + 1;
    }
    let r = Grid { n: g.n, h, w, c: g.c, data };
    proof {
        assert forall|i: int, y: int, x: int, k: int|
            r.holds(i, y, x, k) implies #[trigger] r.at(i, y, x, k) == g.at(i, y, x, k) by {
            offset_in_range(g.n as int, h as int, w as int, g.c as int, i, y, x, k);
            let o = offset(h as int, w as int, g.c as int, i, y, x, k);
            assert(r.data@[o] == g.at(i, y, x, k));
        }
    }
    r
}

/// A value lies in the window that its row and column fall into, at what is left of them; what the
/// windows add beyond the edge is zero.
pub proof fn values_lie_in_their_window<T>(
    g: Grid<T>,
    window: int,
    zero: T,
    r: Grid<T>,
    i: int,
    y: int,
    x: int,
    k: int,
)
    requires
        partitioned(g, window, zero, r),
        0 < window,
        0 <= i < g.n,
        0 <= y < g.h + padding(g.h as int, window),
        0 <= x < g.w + padding(g.w as int, window),
        0 <= k < g.c,
    ensures
        ({
            let rows = (g.h + padding(g.h as int, window)) / window;
            let cols = (g.w + padding(g.w as int, window)) / window;
            let v = r.at((i * rows + y / window) * cols + x / window, y % window, x % window, k);
            &&& y < g.h && x < g.w ==> v == g.at(i, y, x, k)
            &&& y >= g.h || x >= g.w ==> v == zero
        }),
{
    let (h, w) = (g.h as int, g.w as int);
    padding_is_least(h, window);
    padding_is_least(w, window);
    let rows = (h + padding(h, window)) / window;
    let cols = (w + padding(w, window)) / window;
    let (p, q) = (y / window, x / window);
    vstd::arithmetic::div_mod::lemma_fundamental_div_mod(y, window);
    vstd::arithmetic::div_mod::lemma_fundamental_div_mod(x, window);
    assert(window * p == p * window && window * q == q * window) by (nonlinear_arith);
    assert(0 <= p < rows) by (nonlinear_arith)
        requires
            0 <= y < rows * window,
            y == p * window + y % window,
            0 <= y % window < window,
    ;
    assert(0 <= q < cols) by (nonlinear_arith)
        requires
            0 <= x < cols * window,
            x == q * window + x % window,
            0 <= x % window < window,
    ;
    assert(r.at((i * rows + p) * cols + q, y % window, x % window, k) == if p * window + y % window
        < g.h && q * window + x % window < g.w {
        g.at(i, p * window + y % window, q * window + x % window, k)
    } else {
        zero
    });
}

/// Values lie image by image, row by row, column by column, channel by channel.
pub proof fn channels_lie_together<T>(g: Grid<T>, i: int, y: int, x: int, k: int)
    ensures
        g.at(i, y, x, k) == g.data@[((i * g.h + y) * g.w + x) * g.c + k],
{
}

/// A cropped grid keeps what lies above and left of its new edges where it was.
pub proof fn crops_keep_the_first_corner<T>(
    g: Grid<T>,
    h: int,
    w: int,
    r: Grid<T>,
    i: int,
    y: int,
    x: int,
    k: int,
)
    requires
        cropped(g, h, w, r),
        0 <= i < g.n,
        0 <= y < h,
        0 <= x < w,
        0 <= k < g.c,
    ensures
        r.at(i, y, x, k) == g.at(i, y, x, k),
        r.h == h && r.w == w,
{
    assert(r.holds(i, y, x, k));
}

} // verus!
