//! Line plotting and colour arithmetic shared by the shapes and the drawing code.
use vstd::prelude::*;
use vstd::arithmetic::div_mod::{
    lemma_fundamental_div_mod,
    lemma_fundamental_div_mod_converse,
    lemma_mod_bound,
};
use crate::{Color, Coordinate};

verus! {

/// `v` limited to the range of `u8`.
pub open spec fn clamp_u8(v: int) -> int {
    if v > 255 { 255 } else if v < 0 { 0 } else { v }
}

/// Returns `a + b`, limited to the bounds of `u8`.
pub fn border(a: u8, b: i32) -> (r: u8)
    ensures
        r == clamp_u8(a + b),
{
    let sum: i64 = a as i64 + b as i64;
    if sum > 255 {
        255
    } else if sum < 0 {
        0
    } else {
        sum as u8
    }
}

/// `color` with its red, green and blue channels moved by `modify` (each
/// limited to the bounds of `u8`), its alpha channel kept.
pub fn shade(color: Color, modify: i32) -> (c: Color)
    ensures
        c.data[0] == clamp_u8(color.data[0] + modify),
        c.data[1] == clamp_u8(color.data[1] + modify),
        c.data[2] == clamp_u8(color.data[2] + modify),
        c.data[3] == color.data[3],
{
    let c = color.data;
    Color { data: [border(c[0], modify), border(c[1], modify), border(c[2], modify), border(c[3], 0)] }
}

/// Absolute value of an integer.
pub open spec fn iabs(v: int) -> int {
    if v >= 0 { v } else { -v }
}

/// `v` moved by `k` in the direction of `delta` (not moved when `delta` is 0).
pub open spec fn toward(v: int, delta: int, k: int) -> int {
    if delta > 0 { v + k } else if delta < 0 { v - k } else { v }
}

/// Steps along the longer axis between `a` and `b`.
pub open spec fn line_steps(a: Coordinate, b: Coordinate) -> int {
    let adx = iabs(b.x - a.x);
    let ady = iabs(b.y - a.y);
    if adx >= ady { adx } else { ady }
}

/// `k * m / n` rounded to the nearest integer, halves rounded up
/// (0 when `n` is 0).
pub open spec fn rounded_share(k: int, m: int, n: int) -> int {
    if n == 0 { 0 } else { (2 * k * m + n) / (2 * n) }
}

/// The `x` of the `k`-th point of the line from `a` to `b`.
pub open spec fn line_x(a: Coordinate, b: Coordinate, k: int) -> int {
    let dx = b.x - a.x;
    let dy = b.y - a.y;
    if iabs(dx) >= iabs(dy) {
        toward(a.x as int, dx, k)
    } else {
        toward(a.x as int, dx, rounded_share(k, iabs(dx), line_steps(a, b)))
    }
}

/// The `y` of the `k`-th point of the line from `a` to `b`.
pub open spec fn line_y(a: Coordinate, b: Coordinate, k: int) -> int {
    let dx = b.x - a.x;
    let dy = b.y - a.y;
    if iabs(dx) >= iabs(dy) {
        toward(a.y as int, dy, rounded_share(k, iabs(dy), line_steps(a, b)))
    } else {
        toward(a.y as int, dy, k)
    }
}

/// The `k`-th point of the line from `a` to `b`: the longer axis moves one
/// unit per step, the shorter axis follows the rounded proportion.
pub open spec fn line_point(a: Coordinate, b: Coordinate, k: int) -> Coordinate {
    Coordinate { x: line_x(a, b, k) as i16, y: line_y(a, b, k) as i16 }
}

/// All points of the line from `a` to `b`, in order from `a`.
pub open spec fn line(a: Coordinate, b: Coordinate) -> Seq<Coordinate> {
    Seq::new((line_steps(a, b) + 1) as nat, |k: int| line_point(a, b, k))
}

proof fn lemma_share_step(k: int, m: int, n: int, minor: int, d: int)
    requires
        0 <= m <= n,
        0 < n,
        0 <= k <= n,
        0 <= d < 2 * n,
        d == 2 * k * m + n - 2 * n * minor,
    ensures
        minor == rounded_share(k, m, n),
        0 <= minor <= m,
{
    assert(minor * (2 * n) == 2 * n * minor) by (nonlinear_arith);
    lemma_fundamental_div_mod_converse(2 * k * m + n, 2 * n, minor, d);
    assert(2 * k * m <= 2 * n * m) by (nonlinear_arith)
        requires
            0 <= k <= n,
            0 <= m,
    ;
    assert(minor <= m) by (nonlinear_arith)
        requires
            2 * n * minor <= 2 * n * m + n,
            0 < n,
    ;
    assert(minor >= 0) by (nonlinear_arith)
        requires
            2 * n * minor > -2 * n,
            0 < n,
    ;
}

proof fn lemma_div_step(x: int, e: int, d: int)
    requires
        d > 0,
        0 <= e <= d,
    ensures
        x / d <= (x + e) / d <= x / d + 1,
{
    lemma_fundamental_div_mod(x, d);
    lemma_fundamental_div_mod(x + e, d);
    lemma_mod_bound(x, d);
    lemma_mod_bound(x + e, d);
    let q1 = x / d;
    let q2 = (x + e) / d;
    assert(q1 <= q2 <= q1 + 1) by (nonlinear_arith)
        requires
            x == d * q1 + x % d,
            x + e == d * q2 + (x + e) % d,
            0 <= x % d < d,
            0 <= (x + e) % d < d,
            0 <= e <= d,
            d > 0,
    ;
}

proof fn lemma_share_ends(m: int, n: int)
    requires
        0 <= m <= n,
    ensures
        rounded_share(0, m, n) == 0,
        rounded_share(n, m, n) == m,
{
    if n > 0 {
        assert(2 * 0 * m + n == 0 * (2 * n) + n) by (nonlinear_arith);
        lemma_fundamental_div_mod_converse(2 * 0 * m + n, 2 * n, 0, n);
        assert(2 * n * m + n == m * (2 * n) + n) by (nonlinear_arith);
        lemma_fundamental_div_mod_converse(2 * n * m + n, 2 * n, m, n);
    }
}

proof fn lemma_share_moves_by_at_most_one(k: int, m: int, n: int)
    requires
        0 <= m <= n,
    ensures
        rounded_share(k, m, n) <= rounded_share(k + 1, m, n) <= rounded_share(k, m, n) + 1,
{
    if n > 0 {
        assert(2 * (k + 1) * m + n == (2 * k * m + n) + 2 * m) by (nonlinear_arith);
        lemma_div_step(2 * k * m + n, 2 * m, 2 * n);
    }
}

proof fn lemma_share_monotone(i: int, j: int, m: int, n: int)
    requires
        0 <= m <= n,
        i <= j,
    ensures
        rounded_share(i, m, n) <= rounded_share(j, m, n),
    decreases j - i,
{
    if i < j {
        lemma_share_monotone(i, j - 1, m, n);
        lemma_share_moves_by_at_most_one(j - 1, m, n);
    }
}

proof fn lemma_share_bounded(k: int, m: int, n: int)
    requires
        0 <= m <= n,
        0 <= k <= n,
    ensures
        0 <= rounded_share(k, m, n) <= m,
{
    lemma_share_ends(m, n);
    lemma_share_monotone(0, k, m, n);
    lemma_share_monotone(k, n, m, n);
}

/// Every point of a line lies in the box spanned by its endpoints, so the
/// narrowing to `i16` in `line_point` loses nothing.
pub proof fn lemma_line_point_in_box(a: Coordinate, b: Coordinate, k: int)
    requires
        0 <= k <= line_steps(a, b),
    ensures
        a.x <= line_x(a, b, k) <= b.x || b.x <= line_x(a, b, k) <= a.x,
        a.y <= line_y(a, b, k) <= b.y || b.y <= line_y(a, b, k) <= a.y,
        line_point(a, b, k).x == line_x(a, b, k),
        line_point(a, b, k).y == line_y(a, b, k),
{
    let n = line_steps(a, b);
    lemma_share_bounded(k, iabs(b.y - a.y), n);
    lemma_share_bounded(k, iabs(b.x - a.x), n);
}

/// Plots the pixels of the straight line from `a` to `b` (Bresenham's
/// algorithm), starting at `a` and ending at `b`.
pub fn plot(a: Coordinate, b: Coordinate) -> (v: Vec<Coordinate>)
    ensures
        v@ == line(a, b),
{
    let dx: i32 = b.x as i32 - a.x as i32;
    let dy: i32 = b.y as i32 - a.y as i32;
    let adx: i32 = if dx >= 0 { dx } else { -dx };
    let ady: i32 = if dy >= 0 { dy } else { -dy };
    let x_major = adx >= ady;
    let n: i32 = if x_major { adx } else { ady };
    let m: i32 = if x_major { ady } else { adx };
    let mut v: Vec<Coordinate> = Vec::new();
    let mut k: i32 = 0;
    let mut minor: i32 = 0;
    let mut d: i32 = n;
    assert(2 * 0 * m + n - 2 * n * 0 == n) by (nonlinear_arith);
    proof {
        if n > 0 {
            lemma_share_step(0, m as int, n as int, 0, n as int);
        }
    }
    while k <= n
        invariant
            dx == b.x - a.x,
            dy == b.y - a.y,
            adx == iabs(dx as int),
            ady == iabs(dy as int),
            x_major == (adx >= ady),
            n == line_steps(a, b),
            m == (if x_major { ady } else { adx }),
            0 <= m <= n <= 65535,
            0 <= k <= n + 1,
            k <= n ==> 0 <= d < 2 * n || (n == 0 && d == 0),
            k <= n ==> d == 2 * k * m + n - 2 * n * minor,
            k <= n ==> 0 <= minor <= m,
            k <= n ==> minor == rounded_share(k as int, m as int, n as int),
            v@.len() == k,
            forall|i: int| 0 <= i < k ==> v@[i] == line_point(a, b, i),
        decreases n + 1 - k,
    {
        let (major_x, minor_x) = if x_major { (k, minor) } else { (minor, k) };
        let (major_y, minor_y) = if x_major { (minor, k) } else { (k, minor) };
        let px: i32 = if dx > 0 {
            a.x as i32 + major_x
        } else if dx < 0 {
            a.x as i32 - major_x
        } else {
            a.x as i32
        };
        let py: i32 = if dy > 0 {
            a.y as i32 + major_y
        } else if dy < 0 {
            a.y as i32 - major_y
        } else {
            a.y as i32
        };
        proof {
            lemma_line_point_in_box(a, b, k as int);
        }
        v.push(Coordinate::new(px as i16, py as i16));
        assert(v@[k as int] == line_point(a, b, k as int));
        if k < n {
            assert(2 * (k + 1) * m == 2 * k * m + 2 * m) by (nonlinear_arith);
            d = d + 2 * m;
            if d >= 2 * n {
                assert(2 * n * (minor + 1) == 2 * n * minor + 2 * n) by (nonlinear_arith);
                d = d - 2 * n;
                minor = minor + 1;
            }
        }
        k = k + 1;
        proof {
            if k <= n && n > 0 {
                lemma_share_step(k as int, m as int, n as int, minor as int, d as int);
            }
        }
    }
    assert(v@ =~= line(a, b));
    v
}

/// A plotted line starts at its first endpoint.
pub proof fn lemma_line_starts_at_first(a: Coordinate, b: Coordinate)
    ensures
        line(a, b).len() >= 1,
        line(a, b)[0] == a,
{
    lemma_share_ends(iabs(b.y - a.y), line_steps(a, b));
    lemma_share_ends(iabs(b.x - a.x), line_steps(a, b));
    lemma_line_point_in_box(a, b, 0);
}

/// A plotted line ends at its second endpoint.
pub proof fn lemma_line_ends_at_second(a: Coordinate, b: Coordinate)
    ensures
        line(a, b).last() == b,
{
    let n = line_steps(a, b);
    lemma_share_ends(iabs(b.y - a.y), n);
    lemma_share_ends(iabs(b.x - a.x), n);
    lemma_line_point_in_box(a, b, n);
}

/// A plotted line has one point per step along its longer axis, plus one.
pub proof fn lemma_line_length(a: Coordinate, b: Coordinate)
    ensures
        line(a, b).len() == 1 + (if iabs(b.x - a.x) >= iabs(b.y - a.y) {
            iabs(b.x - a.x)
        } else {
            iabs(b.y - a.y)
        }),
{
}

/// A plotted line has no gaps: consecutive points differ by at most one in
/// each axis, and by exactly one along the longer axis.
pub proof fn lemma_line_is_connected(a: Coordinate, b: Coordinate, k: int)
    requires
        0 <= k,
        k + 1 < line(a, b).len(),
    ensures
        iabs(line(a, b)[k + 1].x - line(a, b)[k].x) <= 1,
        iabs(line(a, b)[k + 1].y - line(a, b)[k].y) <= 1,
        iabs(line(a, b)[k + 1].x - line(a, b)[k].x) == 1 || iabs(line(a, b)[k + 1].y
            - line(a, b)[k].y) == 1,
{
    let n = line_steps(a, b);
    lemma_line_point_in_box(a, b, k);
    lemma_line_point_in_box(a, b, k + 1);
    lemma_share_moves_by_at_most_one(k, iabs(b.y - a.y), n);
    lemma_share_moves_by_at_most_one(k, iabs(b.x - a.x), n);
}

/// Membership in a plotted line whose endpoints share their `y`: exactly the
/// points of that row between the two `x` values.
pub proof fn lemma_line_horizontal(a: Coordinate, b: Coordinate, p: Coordinate)
    requires
        a.y == b.y,
    ensures
        line(a, b).contains(p) <==> (p.y == a.y && (a.x <= p.x <= b.x || b.x <= p.x <= a.x)),
{
    let n = line_steps(a, b);
    lemma_share_ends(0, n);
    if p.y == a.y && (a.x <= p.x <= b.x || b.x <= p.x <= a.x) {
        let k = iabs(p.x - a.x);
        lemma_line_point_in_box(a, b, k);
        assert(line(a, b)[k] == p);
    }
    if line(a, b).contains(p) {
        let k = choose|k: int| 0 <= k < line(a, b).len() && line(a, b)[k] == p;
        lemma_line_point_in_box(a, b, k);
    }
}

/// Membership in a plotted line whose endpoints share their `x`: exactly the
/// points of that column between the two `y` values.
pub proof fn lemma_line_vertical(a: Coordinate, b: Coordinate, p: Coordinate)
    requires
        a.x == b.x,
    ensures
        line(a, b).contains(p) <==> (p.x == a.x && (a.y <= p.y <= b.y || b.y <= p.y <= a.y)),
{
    let n = line_steps(a, b);
    lemma_share_ends(0, n);
    if p.x == a.x && (a.y <= p.y <= b.y || b.y <= p.y <= a.y) {
        let k = iabs(p.y - a.y);
        lemma_line_point_in_box(a, b, k);
        assert(line(a, b)[k] == p);
    }
    if line(a, b).contains(p) {
        let k = choose|k: int| 0 <= k < line(a, b).len() && line(a, b)[k] == p;
        lemma_line_point_in_box(a, b, k);
    }
}

} // verus!
