//! The mathematical model of the Hilbert curve, and what holds of it.
use vstd::arithmetic::div_mod::{
    lemma_fundamental_div_mod, lemma_fundamental_div_mod_converse, lemma_small_mod,
};
use vstd::prelude::*;

verus! {

/// `n` is one of 1, 2, 4, 8, ...
pub open spec fn is_power_of_two(n: int) -> bool
    decreases n,
{
    n == 1 || (n >= 2 && n % 2 == 0 && is_power_of_two(n / 2))
}

/// The reflection and transposition of a cell `(x, y)` of a square of side `s`
/// that accounts for the orientation of the quadrant picked by `(rx, ry)`.
pub open spec fn rotated(s: int, x: int, y: int, rx: bool, ry: bool) -> (int, int) {
    if ry {
        (x, y)
    } else if rx {
        (s - 1 - y, s - 1 - x)
    } else {
        (y, x)
    }
}

/// The base-4 digit of the distance that stands for the quadrant `(rx, ry)`.
pub open spec fn quadrant_digit(rx: bool, ry: bool) -> int {
    if rx {
        if ry { 2 } else { 3 }
    } else {
        if ry { 1 } else { 0 }
    }
}

/// The cell that the curve on a square of side `s` visits at distance `t`.
///
/// The base-4 digit of `t` at scale `s / 2` picks the quadrant; the digits
/// below it place the cell inside the quadrant, on the curve of half the side.
pub open spec fn curve_point(s: int, t: int) -> (int, int)
    decreases s,
{
    if s <= 1 {
        (0, 0)
    } else {
        let h = s / 2;
        let d = (t / (h * h)) % 4;
        let rx = d >= 2;
        let ry = (d % 2 == 1) != rx;
        let inner = curve_point(h, t);
        let p = rotated(h, inner.0, inner.1, rx, ry);
        (p.0 + if rx { h } else { 0 }, p.1 + if ry { h } else { 0 })
    }
}

/// The distance at which the curve on a square of side `s` visits `(x, y)`.
pub open spec fn curve_distance(s: int, x: int, y: int) -> int
    decreases s,
{
    if s <= 1 {
        0
    } else {
        let h = s / 2;
        let rx = x >= h;
        let ry = y >= h;
        let p = rotated(h, if rx { x - h } else { x }, if ry { y - h } else { y }, rx, ry);
        quadrant_digit(rx, ry) * (h * h) + curve_distance(h, p.0, p.1)
    }
}

/// Splits `t` at the base-4 digit that stands at scale `m`.
pub proof fn lemma_base4_split(t: int, m: int)
    requires
        t >= 0,
        m > 0,
    ensures
        0 <= t % m < m,
        0 <= t / m,
        t % (4 * m) == ((t / m) % 4) * m + t % m,
        t / (4 * m) == (t / m) / 4,
        (t % (4 * m)) / m == (t / m) % 4,
        (t % (4 * m)) % m == t % m,
{
    let q = t / m;
    let r = t % m;
    lemma_fundamental_div_mod(t, m);
    assert(q >= 0) by (nonlinear_arith)
        requires
            t == m * q + r,
            0 <= r < m,
            t >= 0,
            m > 0,
    ;
    let e = q % 4;
    let k = q / 4;
    let low = e * m + r;
    assert(t == k * (4 * m) + low && 0 <= low < 4 * m && low == e * m + r) by (nonlinear_arith)
        requires
            t == m * q + r,
            q == 4 * k + e,
            0 <= e < 4,
            0 <= r < m,
            low == e * m + r,
    ;
    lemma_fundamental_div_mod_converse(t, 4 * m, k, low);
    lemma_fundamental_div_mod_converse(low, m, e, r);
}

/// The side of a square that holds more than one cell is twice a power of two.
pub proof fn lemma_half(s: int)
    requires
        is_power_of_two(s),
        s > 1,
    ensures
        s == 2 * (s / 2),
        is_power_of_two(s / 2),
        s / 2 >= 1,
        s * s == 4 * ((s / 2) * (s / 2)),
        (s / 2) * (s / 2) > 0,
{
    let h = s / 2;
    assert(s * s == 4 * (h * h) && h * h > 0) by (nonlinear_arith)
        requires
            s == 2 * h,
            h >= 1,
    ;
}

/// Between two powers of two there is room for the double of the smaller.
pub proof fn lemma_double_fits(i: int, n: int)
    requires
        is_power_of_two(i),
        is_power_of_two(n),
        i < n,
    ensures
        2 * i <= n,
        is_power_of_two(2 * i),
    decreases n,
{
    if i > 1 {
        lemma_double_fits(i / 2, n / 2);
    }
    assert((2 * i) / 2 == i);
}

/// The curve stays on its square.
pub proof fn lemma_point_bound(s: int, t: int)
    requires
        is_power_of_two(s),
    ensures
        0 <= curve_point(s, t).0 < s,
        0 <= curve_point(s, t).1 < s,
    decreases s,
{
    if s > 1 {
        lemma_half(s);
        lemma_point_bound(s / 2, t);
    }
}

/// The distance of a cell of the square is less than the number of its cells.
pub proof fn lemma_distance_bound(s: int, x: int, y: int)
    requires
        is_power_of_two(s),
        0 <= x < s,
        0 <= y < s,
    ensures
        0 <= curve_distance(s, x, y) < s * s,
    decreases s,
{
    if s > 1 {
        lemma_half(s);
        let h = s / 2;
        let rx = x >= h;
        let ry = y >= h;
        let p = rotated(h, if rx { x - h } else { x }, if ry { y - h } else { y }, rx, ry);
        lemma_distance_bound(h, p.0, p.1);
        let d = quadrant_digit(rx, ry);
        assert(0 <= d * (h * h) <= 3 * (h * h)) by (nonlinear_arith)
            requires
                0 <= d <= 3,
                h * h > 0,
        ;
    } else {
        assert(s == 1);
    }
}

/// Only the digits of `t` below the square's size decide the cell.
pub proof fn lemma_point_low_digits(s: int, t: int)
    requires
        is_power_of_two(s),
        t >= 0,
    ensures
        curve_point(s, t) == curve_point(s, t % (s * s)),
    decreases s,
{
    if s > 1 {
        lemma_half(s);
        let h = s / 2;
        let m = h * h;
        let low = t % (4 * m);
        lemma_base4_split(t, m);
        lemma_point_low_digits(h, t);
        lemma_point_low_digits(h, low);
        assert(((low / m) % 4) == (t / m) % 4);
    }
}

/// Mapping a distance to its cell and back gives the distance, taken modulo
/// the number of cells.
pub proof fn lemma_distance_of_point(s: int, t: int)
    requires
        is_power_of_two(s),
        t >= 0,
    ensures
        curve_distance(s, curve_point(s, t).0, curve_point(s, t).1) == t % (s * s),
    decreases s,
{
    if s > 1 {
        lemma_half(s);
        let h = s / 2;
        let m = h * h;
        lemma_base4_split(t, m);
        lemma_point_bound(h, t);
        lemma_distance_of_point(h, t);
    } else {
        assert(s == 1);
        assert(t % 1 == 0);
    }
}

/// Mapping a cell to its distance and back gives the cell.
pub proof fn lemma_point_of_distance(s: int, x: int, y: int)
    requires
        is_power_of_two(s),
        0 <= x < s,
        0 <= y < s,
    ensures
        curve_point(s, curve_distance(s, x, y)) == (x, y),
    decreases s,
{
    if s > 1 {
        lemma_half(s);
        let h = s / 2;
        let m = h * h;
        let rx = x >= h;
        let ry = y >= h;
        let p = rotated(h, if rx { x - h } else { x }, if ry { y - h } else { y }, rx, ry);
        let d = quadrant_digit(rx, ry);
        let low = curve_distance(h, p.0, p.1);
        let t = d * m + low;
        lemma_distance_bound(h, p.0, p.1);
        lemma_point_of_distance(h, p.0, p.1);
        lemma_fundamental_div_mod_converse(t, m, d, low);
        assert(t >= 0) by (nonlinear_arith)
            requires
                t == d * m + low,
                d >= 0,
                m > 0,
                low >= 0,
        ;
        lemma_point_low_digits(h, t);
        assert(curve_point(h, t) == p);
    }
}

/// The curve starts in the corner `(0, 0)`.
pub proof fn lemma_curve_start(s: int)
    requires
        is_power_of_two(s),
    ensures
        curve_point(s, 0) == (0int, 0int),
    decreases s,
{
    if s > 1 {
        lemma_half(s);
        let h = s / 2;
        lemma_fundamental_div_mod_converse(0, h * h, 0, 0);
        lemma_curve_start(h);
    }
}

/// The curve ends in the corner `(s - 1, 0)`.
pub proof fn lemma_curve_end(s: int)
    requires
        is_power_of_two(s),
    ensures
        curve_point(s, s * s - 1) == (s - 1, 0int),
    decreases s,
{
    if s > 1 {
        lemma_half(s);
        let h = s / 2;
        let m = h * h;
        let t = s * s - 1;
        assert(t == 3 * m + (m - 1));
        lemma_fundamental_div_mod_converse(t, m, 3, m - 1);
        lemma_point_low_digits(h, t);
        lemma_curve_end(h);
    } else {
        assert(s == 1);
    }
}

/// Two cells that share a side.
pub open spec fn adjacent(p: (int, int), q: (int, int)) -> bool {
    ||| p.0 == q.0 && (p.1 - q.1 == 1 || q.1 - p.1 == 1)
    ||| p.1 == q.1 && (p.0 - q.0 == 1 || q.0 - p.0 == 1)
}

/// The larger of the distances between two cells along the two axes.
pub open spec fn chebyshev(p: (int, int), q: (int, int)) -> int {
    let dx = if p.0 >= q.0 { p.0 - q.0 } else { q.0 - p.0 };
    let dy = if p.1 >= q.1 { p.1 - q.1 } else { q.1 - p.1 };
    if dx >= dy { dx } else { dy }
}

/// Locality: the cells at two consecutive distances share a side, so they
/// are one step apart.
pub proof fn lemma_consecutive_adjacent(n: int, t: int)
    requires
        is_power_of_two(n),
        0 <= t,
        t + 1 < n * n,
    ensures
        adjacent(curve_point(n, t), curve_point(n, t + 1)),
        chebyshev(curve_point(n, t), curve_point(n, t + 1)) == 1,
    decreases n,
{
    if n > 1 {
        lemma_half(n);
        let h = n / 2;
        let m = h * h;
        let q = t / m;
        let r = t % m;
        lemma_base4_split(t, m);
        lemma_fundamental_div_mod(t, m);
        lemma_point_low_digits(h, t);
        lemma_point_low_digits(h, t + 1);
        lemma_point_bound(h, t);
        lemma_point_bound(h, t + 1);
        assert(q < 4) by (nonlinear_arith)
            requires
                t == m * q + r,
                0 <= r,
                t < 4 * m,
                m > 0,
        ;
        if r + 1 < m {
            assert(t + 1 == q * m + (r + 1)) by (nonlinear_arith)
                requires
                    t == m * q + r,
            ;
            lemma_fundamental_div_mod_converse(t + 1, m, q, r + 1);
            lemma_consecutive_adjacent(h, r);
        } else {
            assert(t + 1 == (q + 1) * m + 0) by (nonlinear_arith)
                requires
                    t == m * q + r,
                    r + 1 == m,
            ;
            lemma_fundamental_div_mod_converse(t + 1, m, q + 1, 0);
            assert(q + 1 < 4) by (nonlinear_arith)
                requires
                    t + 1 == (q + 1) * m,
                    t + 1 < 4 * m,
                    m > 0,
            ;
            lemma_curve_end(h);
            lemma_curve_start(h);
            assert(curve_point(h, t) == (h - 1, 0int));
            assert(curve_point(h, t + 1) == (0int, 0int));
        }
    } else {
        assert(n == 1);
        assert(n * n == 1) by (nonlinear_arith)
            requires
                n == 1,
        ;
    }
}

/// Round trip from a distance: the cell at a distance along the curve lies on
/// the grid, and the curve visits it at that distance.
pub proof fn lemma_map_then_inverse(n: int, t: int)
    requires
        is_power_of_two(n),
        0 <= t < n * n,
    ensures
        0 <= curve_point(n, t).0 < n,
        0 <= curve_point(n, t).1 < n,
        curve_distance(n, curve_point(n, t).0, curve_point(n, t).1) == t,
{
    lemma_point_bound(n, t);
    lemma_distance_of_point(n, t);
    lemma_small_mod(t as nat, (n * n) as nat);
}

/// Round trip from a cell: the distance of a cell of the grid lies on the
/// curve, and the curve visits the cell at that distance.
pub proof fn lemma_inverse_then_map(n: int, x: int, y: int)
    requires
        is_power_of_two(n),
        0 <= x < n,
        0 <= y < n,
    ensures
        0 <= curve_distance(n, x, y) < n * n,
        curve_point(n, curve_distance(n, x, y)) == (x, y),
{
    lemma_distance_bound(n, x, y);
    lemma_point_of_distance(n, x, y);
}

/// The curve visits no cell twice: two distinct distances give two distinct
/// cells.
pub proof fn lemma_map_injective(n: int, t1: int, t2: int)
    requires
        is_power_of_two(n),
        0 <= t1 < n * n,
        0 <= t2 < n * n,
        t1 != t2,
    ensures
        curve_point(n, t1) != curve_point(n, t2),
{
    lemma_map_then_inverse(n, t1);
    lemma_map_then_inverse(n, t2);
}

/// No two cells share a distance.
pub proof fn lemma_map_inverse_injective(n: int, x1: int, y1: int, x2: int, y2: int)
    requires
        is_power_of_two(n),
        0 <= x1 < n,
        0 <= y1 < n,
        0 <= x2 < n,
        0 <= y2 < n,
        (x1, y1) != (x2, y2),
    ensures
        curve_distance(n, x1, y1) != curve_distance(n, x2, y2),
{
    lemma_inverse_then_map(n, x1, y1);
    lemma_inverse_then_map(n, x2, y2);
}

} // verus!
