//! Building values from lists of positions.
use vstd::prelude::*;
use crate::Coordinate;

verus! {

/// The coordinate of the `i`-th pair of `list`.
pub open spec fn coordinate_at(list: Seq<(i16, i16)>, i: int) -> Coordinate {
    Coordinate { x: list[i].0, y: list[i].1 }
}

/// Constructs one value per pair of `list`, in order, by calling `get` with
/// the pair as a coordinate and the pair's index.
pub fn from_list<T, F: Fn(Coordinate, usize) -> T>(list: &[(i16, i16)], get: &F) -> (v: Vec<T>)
    requires
        forall|i: int| 0 <= i < list@.len() ==> get.requires((coordinate_at(list@, i), i as usize)),
    ensures
        v@.len() == list@.len(),
        forall|i: int|
            0 <= i < list@.len() ==> get.ensures((coordinate_at(list@, i), i as usize), #[trigger] v@[i]),
{
    let mut result: Vec<T> = Vec::new();
    let mut i: usize = 0;
    while i < list.len()
        invariant
            i <= list@.len(),
            result@.len() == i,
            forall|j: int| 0 <= j < list@.len() ==> get.requires((coordinate_at(list@, j), j as usize)),
            forall|j: int|
                0 <= j < i ==> get.ensures((coordinate_at(list@, j), j as usize), #[trigger] result@[j]),
        decreases list@.len() - i,
    {
        let (x, y) = list[i];
        let c = Coordinate::new(x, y);
        assert(c == coordinate_at(list@, i as int));
        assert(get.requires((coordinate_at(list@, i as int), (i as int) as usize)));
        let item = get(c, i);
        result.push(item);
        i = i + 1;
    }
    result
}

#[verifier::external_type_specification]
#[verifier::external_body]
pub struct ExThreadRng(rand::rngs::ThreadRng);

/// rand's `thread_rng`: a handle on the thread's random number generator.
/// Nothing is claimed of it (it panics only if the generator cannot be
/// seeded by the operating system, which nothing here can rule out).
#[verifier::external_body]
fn thread_rng() -> (r: rand::rngs::ThreadRng) {
    rand::thread_rng()
}

/// rand's `Rng::gen_range` over `low..high`. Claimed, as its documentation
/// states: the result lies in `low..high`; which value comes back is chance.
/// It panics on an empty range, which `requires` rules out.
#[verifier::external_body]
fn gen_range(rng: &mut rand::rngs::ThreadRng, low: u32, high: u32) -> (r: u32)
    requires
        low < high,
    ensures
        low <= r < high,
{
    rand::Rng::gen_range(rng, low..high)
}

/// Returns the largest `r` with `r * r <= v`.
pub fn isqrt(v: u64) -> (r: u64)
    requires
        v <= 0x1_0000_0000,
    ensures
        r * r <= v < (r + 1) * (r + 1),
{
    let mut r: u64 = 0;
    let mut next_square: u64 = 1;
    while next_square <= v
        invariant
            r * r <= v <= 0x1_0000_0000,
            r <= 0x1_0000,
            next_square == (r + 1) * (r + 1),
        decreases v - r * r,
    {
        assert((r + 1) * (r + 1) > r * r) by (nonlinear_arith);
        assert(r + 1 <= 0x1_0000) by (nonlinear_arith)
            requires
                (r + 1) * (r + 1) <= 0x1_0000_0000,
        ;
        assert((r + 2) * (r + 2) == (r + 1) * (r + 1) + 2 * (r + 1) + 1) by (nonlinear_arith);
        r = r + 1;
        next_square = next_square + 2 * r + 1;
    }
    r
}

/// Whether `d` is the ceiling of the square root of `v`: the smallest
/// `d >= 0` with `v <= d * d`.
pub open spec fn is_ceil_sqrt(v: int, d: int) -> bool {
    &&& 0 <= d
    &&& v <= d * d
    &&& (d == 0 || (d - 1) * (d - 1) < v)
}

/// The ceiling of the square root of `v` (0 for `v <= 0`).
pub open spec fn ceil_sqrt(v: int) -> int {
    choose|d: int| is_ceil_sqrt(v, d)
}

/// There is only one ceiling of a square root, so `ceil_sqrt` picks it.
pub proof fn lemma_ceil_sqrt_unique(v: int, d: int)
    requires
        is_ceil_sqrt(v, d),
    ensures
        ceil_sqrt(v) == d,
{
    let e = ceil_sqrt(v);
    assert(is_ceil_sqrt(v, e));
    if e < d {
        assert((d - 1) * (d - 1) >= e * e) by (nonlinear_arith)
            requires
                0 <= e <= d - 1,
        ;
    } else if d < e {
        assert((e - 1) * (e - 1) >= d * d) by (nonlinear_arith)
            requires
                0 <= d <= e - 1,
        ;
    }
}

/// A ceiling of the square root of `v` exists wherever some `d >= 0` has
/// `v <= d * d`, and it is at most that `d`.
pub proof fn lemma_ceil_sqrt_exists(v: int, d: int)
    requires
        0 <= d,
        v <= d * d,
    ensures
        is_ceil_sqrt(v, ceil_sqrt(v)),
        ceil_sqrt(v) <= d,
    decreases d,
{
    if d == 0 || (d - 1) * (d - 1) < v {
        lemma_ceil_sqrt_unique(v, d);
    } else {
        lemma_ceil_sqrt_exists(v, d - 1);
    }
}

/// Returns the smallest `d` with `v <= d * d`.
pub fn ceil_isqrt(v: u64) -> (d: u64)
    requires
        v <= 0x1_0000_0000,
    ensures
        d == ceil_sqrt(v as int),
        d <= 0x1_0000,
{
    let f = isqrt(v);
    assert(f <= 0x1_0000) by (nonlinear_arith)
        requires
            f * f <= 0x1_0000_0000,
    ;
    let d = if f * f == v { f } else { f + 1 };
    proof {
        if f * f == v {
            if f > 0 {
                assert((f - 1) * (f - 1) < f * f) by (nonlinear_arith)
                    requires
                        f > 0,
                ;
            }
        } else {
            assert(d <= 0x1_0000) by (nonlinear_arith)
                requires
                    f * f < v <= 0x1_0000_0000,
                    d == f + 1,
                    f <= 0x1_0000,
            ;
        }
        lemma_ceil_sqrt_unique(v as int, d as int);
    }
    d
}

/// Whether every point within `reach` of `c` on each axis fits `i16`.
pub open spec fn reach_fits(c: Coordinate, reach: int) -> bool {
    &&& c.x - reach >= i16::MIN
    &&& c.x + reach <= i16::MAX
    &&& c.y - reach >= i16::MIN
    &&& c.y + reach <= i16::MAX
}

/// Whether every point `gen_radius(c, _, max)` can place fits `i16`: those
/// within `max - 1` of `c` on each axis.
pub open spec fn radius_fits(c: Coordinate, max: u32) -> bool {
    reach_fits(c, max as int - 1)
}

/// Returns `radius_fits(c, max)`.
pub fn radius_fits_exec(c: Coordinate, max: u32) -> (r: bool)
    ensures
        r == radius_fits(c, max),
{
    let m: i64 = max as i64 - 1;
    c.x as i64 - m >= -32768 && c.x as i64 + m <= 32767 && c.y as i64 - m >= -32768 && c.y as i64 + m
        <= 32767
}

/// The point `place_on_radius` gives: `dx` to the right of `c` (to the left
/// with `flip_x`), and below it (above it with `flip_y`) the vertical offset
/// that puts the point on or just outside the circle of radius `r`, that is,
/// `ceil_sqrt(r² - dx²)`.
pub open spec fn radius_point(c: Coordinate, r: int, dx: int, flip_x: bool, flip_y: bool) -> Coordinate {
    let dy = ceil_sqrt(r * r - dx * dx);
    Coordinate {
        x: (if flip_x { c.x - dx } else { c.x + dx }) as i16,
        y: (if flip_y { c.y - dy } else { c.y + dy }) as i16,
    }
}

/// The square of the distance between `a` and `b`.
pub open spec fn sq_dist(a: Coordinate, b: Coordinate) -> int {
    (a.x - b.x) * (a.x - b.x) + (a.y - b.y) * (a.y - b.y)
}

/// A point placed on radius `r` around `c` lies at a distance of at least
/// `r` and less than `r + 1` from `c`, and its offsets from `c` are at most
/// `r` on each axis (so nothing is lost narrowing to `i16`).
pub proof fn lemma_radius_point_distance(c: Coordinate, r: int, dx: int, flip_x: bool, flip_y: bool)
    requires
        0 <= dx <= r,
        reach_fits(c, r),
    ensures
        ({
            let p = radius_point(c, r, dx, flip_x, flip_y);
            let dy = ceil_sqrt(r * r - dx * dx);
            &&& 0 <= dy <= r
            &&& p.x == (if flip_x { c.x - dx } else { c.x + dx })
            &&& p.y == (if flip_y { c.y - dy } else { c.y + dy })
            &&& r * r <= sq_dist(c, p) < (r + 1) * (r + 1)
        }),
{
    let v = r * r - dx * dx;
    let dy = ceil_sqrt(v);
    assert(dx * dx <= r * r) by (nonlinear_arith)
        requires
            0 <= dx <= r,
    ;
    lemma_ceil_sqrt_exists(v, r);
    let p = radius_point(c, r, dx, flip_x, flip_y);
    let ox = p.x - c.x;
    let oy = p.y - c.y;
    assert(ox * ox == dx * dx) by (nonlinear_arith)
        requires
            ox == dx || ox == -dx,
    ;
    assert(oy * oy == dy * dy) by (nonlinear_arith)
        requires
            oy == dy || oy == -dy,
    ;
    assert(sq_dist(c, p) == ox * ox + oy * oy) by (nonlinear_arith)
        requires
            ox == p.x - c.x,
            oy == p.y - c.y,
    ;
    assert(r * r <= dx * dx + dy * dy < (r + 1) * (r + 1)) by (nonlinear_arith)
        requires
            0 <= dy <= r,
            r * r - dx * dx <= dy * dy,
            dy == 0 || (dy - 1) * (dy - 1) < r * r - dx * dx,
            dx * dx <= r * r,
            0 <= r,
    ;
}

/// Places a point on the circle of radius `r` around `c`, `dx` away from it
/// horizontally: the exact form of `radius_point`.
pub fn place_on_radius(c: Coordinate, r: u32, dx: u32, flip_x: bool, flip_y: bool) -> (p: Coordinate)
    requires
        dx <= r,
        reach_fits(c, r as int),
    ensures
        p == radius_point(c, r as int, dx as int, flip_x, flip_y),
{
    proof {
        lemma_radius_point_distance(c, r as int, dx as int, flip_x, flip_y);
    }
    assert(r * r <= 0x1_0000_0000 && dx * dx <= r * r) by (nonlinear_arith)
        requires
            r <= 0x1_0000,
            dx <= r,
    ;
    let rest: u64 = r as u64 * r as u64 - dx as u64 * dx as u64;
    let dy = ceil_isqrt(rest);
    let x: i32 = if flip_x { c.x as i32 - dx as i32 } else { c.x as i32 + dx as i32 };
    let y: i32 = if flip_y { c.y as i32 - dy as i32 } else { c.y as i32 + dy as i32 };
    Coordinate::new(x as i16, y as i16)
}

/// Whether `p` is a point that `gen_radius(c, min, max)` can place: on some
/// radius `r` from `min` up to `max` (exclusive), at some horizontal offset
/// within `r`, in some direction.
pub open spec fn placeable(c: Coordinate, min: int, max: int, p: Coordinate) -> bool {
    exists|r: int, dx: int, flip_x: bool, flip_y: bool|
        min <= r < max && 0 <= dx <= r && p == #[trigger] radius_point(c, r, dx, flip_x, flip_y)
}

/// Places a coordinate at a random distance from `coordinates`, at least
/// `min` and less than `max`, in a random direction: it draws a radius `r`
/// from `min..max`, a horizontal offset from `0..=r` and the two directions,
/// and places the point with `place_on_radius`.
pub fn gen_radius(coordinates: Coordinate, min: u32, max: u32) -> (p: Coordinate)
    requires
        min < max,
        radius_fits(coordinates, max),
    ensures
        placeable(coordinates, min as int, max as int, p),
        min * min <= sq_dist(coordinates, p) < max * max,
{
    let mut rng = thread_rng();
    let r = gen_range(&mut rng, min, max);
    let dx = gen_range(&mut rng, 0, r + 1);
    let flip_x = gen_range(&mut rng, 0, 2) == 1;
    let flip_y = gen_range(&mut rng, 0, 2) == 1;
    let p = place_on_radius(coordinates, r, dx, flip_x, flip_y);
    proof {
        lemma_radius_point_distance(coordinates, r as int, dx as int, flip_x, flip_y);
        assert(min * min <= r * r) by (nonlinear_arith)
            requires
                0 <= min <= r,
        ;
        assert((r + 1) * (r + 1) <= max * max) by (nonlinear_arith)
            requires
                0 <= r + 1 <= max,
        ;
        assert(placeable(coordinates, min as int, max as int, p)) by {
            assert(min <= r < max && 0 <= dx <= r && p == radius_point(
                coordinates,
                r as int,
                dx as int,
                flip_x,
                flip_y,
            ));
        }
    }
    p
}

} // verus!
