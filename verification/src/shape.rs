//! Shapes that a node can be drawn as: the pixel offsets each one covers.
use vstd::prelude::*;
use vstd::arithmetic::div_mod::lemma_fundamental_div_mod_converse;
use crate::Coordinate;
use crate::tools::{
    iabs,
    line,
    lemma_line_ends_at_second,
    lemma_line_horizontal,
    lemma_line_point_in_box,
    lemma_line_starts_at_first,
    lemma_line_vertical,
    line_point,
    line_steps,
    plot,
};

verus! {

/// A shape that covers a set of pixel offsets for a given size.
pub trait Shape: Sized {
    /// The offsets that `area` returns for `size`, in order.
    spec fn covered(&self, size: u32) -> Seq<Coordinate>;

    /// Whether `area` can be computed for `size` (it cannot overflow).
    spec fn area_defined(&self, size: u32) -> bool;

    fn new() -> Self;

    /// Returns all coordinates that the shape occupies, relative to 0, 0.
    fn area(&self, size: u32) -> (v: Vec<Coordinate>)
        requires
            self.area_defined(size),
        ensures
            v@ == self.covered(size),
    ;
}

/// A filled square.
#[derive(Debug, Clone)]
pub struct Square {}

/// A filled circle.
#[derive(Debug, Clone)]
pub struct Circle {}

/// A filled triangle.
#[derive(Debug, Clone)]
pub struct Triangle {}

/// The offsets of a `size` by `size` square, column by column: offset `k` is
/// `(k / size, k % size)`, each narrowed to `i16`.
pub open spec fn square_area(size: u32) -> Seq<Coordinate> {
    Seq::new(
        (size * size) as nat,
        |k: int| Coordinate { x: (k / (size as int)) as i16, y: (k % (size as int)) as i16 },
    )
}

impl Shape for Square {
    open spec fn covered(&self, size: u32) -> Seq<Coordinate> {
        square_area(size)
    }

    open spec fn area_defined(&self, size: u32) -> bool {
        true
    }

    fn new() -> Square {
        Square {}
    }

    /// Returns all coordinates that the shape occupies.
    /// Assume that you start at coordinate x: 0, y: 0.
    fn area(&self, size: u32) -> (v: Vec<Coordinate>) {
        let mut vec: Vec<Coordinate> = Vec::new();
        let mut i: u32 = 0;
        while i < size
            invariant
                i <= size,
                vec@.len() == i * size,
                forall|k: int| 0 <= k < vec@.len() ==> vec@[k] == square_area(size)[k],
            decreases size - i,
        {
            let mut j: u32 = 0;
            while j < size
                invariant
                    i < size,
                    j <= size,
                    vec@.len() == i * size + j,
                    forall|k: int| 0 <= k < vec@.len() ==> vec@[k] == square_area(size)[k],
                decreases size - j,
            {
                let ghost k = i * size + j;
                proof {
                    assert(k < size * size) by (nonlinear_arith)
                        requires
                            k == i * size + j,
                            i < size,
                            j < size,
                    ;
                    assert(k == i * (size as int) + j);
                    lemma_fundamental_div_mod_converse(k, size as int, i as int, j as int);
                }
                vec.push(Coordinate::new(i as i16, j as i16));
                j = j + 1;
            }
            assert((i + 1) * size == i * size + size) by (nonlinear_arith);
            i = i + 1;
        }
        assert(vec@.len() == size * size);
        assert(vec@ =~= square_area(size));
        vec
    }
}

/// The lines of a triangle of height `s`: from the apex `(s / 2, 0)` to each
/// of the first `count` points `(i, s)` of the base, one after the other.
pub open spec fn triangle_lines(s: int, count: int) -> Seq<Coordinate>
    decreases count,
{
    if count <= 0 {
        Seq::empty()
    } else {
        triangle_lines(s, count - 1) + line(
            Coordinate { x: (s / 2) as i16, y: 0 },
            Coordinate { x: (count - 1) as i16, y: s as i16 },
        )
    }
}

/// The offsets of a triangle of the given size (narrowed to `i16`): the lines
/// from its apex to every point of its base.
pub open spec fn triangle_area(size: u32) -> Seq<Coordinate> {
    triangle_lines((size as i16) as int, (size as i16) as int)
}

impl Shape for Triangle {
    open spec fn covered(&self, size: u32) -> Seq<Coordinate> {
        triangle_area(size)
    }

    open spec fn area_defined(&self, size: u32) -> bool {
        true
    }

    fn new() -> Triangle {
        Triangle {}
    }

    /// Returns all coordinates that the shape occupies.
    /// Assume that you start at coordinate x: 0, y: 0.
    fn area(&self, size: u32) -> (v: Vec<Coordinate>) {
        let mut vec: Vec<Coordinate> = Vec::new();
        let size = #[verifier::truncate] (size as i16);
        let start_x = size / 2;
        let mut i: i16 = 0;
        while i < size
            invariant
                0 <= i,
                size < 0 || i <= size,
                size <= 0 ==> i == 0,
                size > 0 ==> start_x == size / 2,
                vec@ == triangle_lines(size as int, i as int),
            decreases size - i,
        {
            let mut part = plot(Coordinate::new(start_x, 0), Coordinate::new(i, size));
            vec.append(&mut part);
            i = i + 1;
        }
        assert(vec@ == triangle_lines(size as int, size as int));
        vec
    }
}

/// The point `(x, y)`, narrowed to `i16`.
pub open spec fn point(x: int, y: int) -> Coordinate {
    Coordinate { x: x as i16, y: y as i16 }
}

/// The four chords that one step of the circle walk at `(x, y)` fills: the
/// rows at heights `y` and `-y` and the columns at `-y` and `y`, each from
/// `-x` to `x` (in the order and direction that `area` plots them).
pub open spec fn circle_chords(x: int, y: int) -> Seq<Coordinate> {
    line(point(x, y), point(-x, y)) + line(point(x, -y), point(-x, -y)) + line(
        point(-y, -x),
        point(-y, x),
    ) + line(point(y, -x), point(y, x))
}

/// The walk of the midpoint circle algorithm for a circle of size `s`, from
/// `(x, y)` on: while `x >= y`, fill the chords at `(x, y)`, then step up in
/// `y` when `(x, y)` is inside or on the circle (`x² + y² <= s²`), otherwise
/// step in in `x`.
pub open spec fn circle_walk(s: int, x: int, y: int) -> Seq<Coordinate>
    decreases x - y + 1,
{
    if x < y {
        Seq::empty()
    } else if x * x + y * y <= s * s {
        circle_chords(x, y) + circle_walk(s, x, y + 1)
    } else {
        circle_chords(x, y) + circle_walk(s, x - 1, y)
    }
}

/// Whether `Circle::area` is defined for `size`: sizes congruent modulo 65536
/// to a value in 16384 ..= 32768, or to 49152, overflow its `i16` arithmetic,
/// and 0 underflows.
pub open spec fn circle_size_ok(size: u32) -> bool {
    let m = size % 65536;
    &&& size >= 1
    &&& (m <= 16383 || m >= 32769)
    &&& m != 49152
}

/// The offsets of a circle of the given size: the `i16` arithmetic sees the
/// size modulo 65536; a circle of size `s` in 1 ..= 16383 is the walk from
/// `(s - 1, 0)`, and every other accepted size gives no offsets.
pub open spec fn circle_area(size: u32) -> Seq<Coordinate> {
    let m = size % 65536;
    if 1 <= m <= 16383 {
        circle_walk(m as int, m - 1, 0)
    } else {
        Seq::empty()
    }
}

proof fn lemma_circle_casts(size: u32)
    requires
        circle_size_ok(size),
    ensures
        1 <= size % 65536 <= 16383 ==> ((size - 1) as i16) == (size % 65536) - 1 && ((size
            << 1u32) as i16) == 2 * (size % 65536),
        !(1 <= size % 65536 <= 16383) ==> ((size - 1) as i16) < 0 && ((size << 1u32) as i16)
            != -32768,
        ((size << 1u32) as i16) != -32767,
{
    assert(1 <= size % 65536 <= 16383 ==> ((size - 1) as i16) as u32 + 1 == size % 65536)
        by (bit_vector)
        requires
            size >= 1,
    ;
    assert(1 <= size % 65536 <= 16383 ==> ((size << 1u32) as i16) as u32 == 2 * (size
        % 65536)) by (bit_vector);
    assert(1 <= size % 65536 <= 16383 ==> 0 <= ((size - 1) as i16) && 0 <= ((size << 1u32)
        as i16)) by (bit_vector)
        requires
            size >= 1,
    ;
    assert(!(1 <= size % 65536 <= 16383) ==> ((size - 1) as i16) < 0) by (bit_vector)
        requires
            size >= 1,
            size % 65536 <= 16383 || size % 65536 >= 32769,
    ;
    assert(((size << 1u32) as i16) != -32767) by (bit_vector);
    assert(size % 65536 != 49152 ==> ((size << 1u32) as i16) != -32768) by (bit_vector)
        requires
            size % 65536 <= 16383 || size % 65536 >= 32769,
    ;
}

impl Shape for Circle {
    open spec fn covered(&self, size: u32) -> Seq<Coordinate> {
        circle_area(size)
    }

    open spec fn area_defined(&self, size: u32) -> bool {
        circle_size_ok(size)
    }

    fn new() -> Circle {
        Circle {}
    }

    /// Returns all coordinates that the shape occupies.
    /// The algorithm is the midpoint circle algorithm.
    fn area(&self, size: u32) -> (v: Vec<Coordinate>) {
        proof {
            lemma_circle_casts(size);
        }
        let ghost m = size % 65536;
        let ghost main = 1 <= m <= 16383;
        let ghost s = m as int;
        let mut vec: Vec<Coordinate> = Vec::new();
        let mut x: i16 = #[verifier::truncate] ((size - 1) as i16);
        let mut y: i16 = 0;
        let mut dx: i16 = 1;
        let mut dy: i16 = 1;
        let x0: i16 = 0;
        let y0: i16 = 0;
        let mut err: i16 = dx - #[verifier::truncate] ((size << 1u32) as i16);
        assert(main ==> x * x + y * y - s * s == -2 * s + 1) by (nonlinear_arith)
            requires
                main ==> x == s - 1,
                y == 0,
        ;
        while x >= y
            invariant
                x0 == 0,
                y0 == 0,
                m == size % 65536,
                s == m,
                main == (1 <= m <= 16383),
                main ==> ((size << 1u32) as i16) == 2 * s,
                !main ==> x < y && vec@.len() == 0,
                main ==> {
                    &&& 0 <= y <= x + 1
                    &&& x <= s - 1
                    &&& dx == 2 * (s - 1 - x) + 1
                    &&& dy == 2 * y + 1
                    &&& err == x * x + y * y - s * s
                    &&& -2 * s + 1 <= err <= 2 * s - 1
                    &&& vec@ + circle_walk(s, x as int, y as int) == circle_walk(s, s - 1, 0)
                },
            decreases x - y + 1,
        {
            let ghost before = vec@;
            let mut part = plot(Coordinate::new(x0 + x, y0 + y), Coordinate::new(x0 - x, y0 + y));
            vec.append(&mut part);
            let mut part = plot(Coordinate::new(x0 + x, y0 - y), Coordinate::new(x0 - x, y0 - y));
            vec.append(&mut part);
            let mut part = plot(Coordinate::new(x0 - y, y0 - x), Coordinate::new(x0 - y, y0 + x));
            vec.append(&mut part);
            let mut part = plot(Coordinate::new(x0 + y, y0 - x), Coordinate::new(x0 + y, y0 + x));
            vec.append(&mut part);
            assert(vec@ =~= before + circle_chords(x as int, y as int));
            let ghost (ox, oy) = (x as int, y as int);
            if err <= 0 {
                assert((y + 1) * (y + 1) == y * y + 2 * y + 1) by (nonlinear_arith);
                y += 1;
                err += dy;
                dy += 2;
            } else {
                assert(x >= 1) by (nonlinear_arith)
                    requires
                        err == x * x + y * y - s * s,
                        err > 0,
                        0 <= y <= x,
                        s >= 1,
                ;
                assert((x - 1) * (x - 1) == x * x - 2 * x + 1) by (nonlinear_arith);
                x -= 1;
                dx += 2;
                err += dx - #[verifier::truncate] ((size << 1u32) as i16);
            }
            assert(circle_walk(s, ox, oy) == circle_chords(ox, oy) + circle_walk(
                s,
                x as int,
                y as int,
            ));
            assert(vec@ + circle_walk(s, x as int, y as int) =~= before + circle_walk(s, ox, oy));
        }
        vec
    }
}

/// Whether `p` lies on one of the chords filled at `(x, y)`: on the row at
/// height `y` or `-y`, or on the column at `y` or `-y`, within `x` of the
/// centre along it.
pub open spec fn on_chords(x: int, y: int, p: Coordinate) -> bool {
    ||| iabs(p.y as int) == y && iabs(p.x as int) <= x
    ||| iabs(p.x as int) == y && iabs(p.y as int) <= x
}

proof fn lemma_chords_contains(x: int, y: int, p: Coordinate)
    requires
        0 <= y <= x <= 16383,
    ensures
        circle_chords(x, y).contains(p) <==> on_chords(x, y, p),
{
    broadcast use vstd::seq_lib::lemma_seq_concat_contains_all_elements;

    lemma_line_horizontal(point(x, y), point(-x, y), p);
    lemma_line_horizontal(point(x, -y), point(-x, -y), p);
    lemma_line_vertical(point(-y, -x), point(-y, x), p);
    lemma_line_vertical(point(y, -x), point(y, x), p);
}

/// The point `p` reflected across the vertical axis.
pub open spec fn flip_x(p: Coordinate) -> Coordinate {
    Coordinate { x: (-p.x) as i16, y: p.y }
}

/// The point `p` reflected across the horizontal axis.
pub open spec fn flip_y(p: Coordinate) -> Coordinate {
    Coordinate { x: p.x, y: (-p.y) as i16 }
}

/// The point `p` reflected across the diagonal.
pub open spec fn swap_xy(p: Coordinate) -> Coordinate {
    Coordinate { x: p.y, y: p.x }
}

proof fn lemma_walk_facts(s: int, x: int, y: int, p: Coordinate)
    requires
        0 <= y,
        x <= s - 1,
        s <= 16383,
        circle_walk(s, x, y).contains(p),
    ensures
        iabs(p.x as int) <= s - 1,
        iabs(p.y as int) <= s - 1,
        circle_walk(s, x, y).contains(flip_x(p)),
        circle_walk(s, x, y).contains(flip_y(p)),
        circle_walk(s, x, y).contains(swap_xy(p)),
    decreases x - y + 1,
{
    broadcast use vstd::seq_lib::lemma_seq_concat_contains_all_elements;

    if x >= y {
        let rest = if x * x + y * y <= s * s {
            circle_walk(s, x, y + 1)
        } else {
            circle_walk(s, x - 1, y)
        };
        assert(circle_walk(s, x, y) == circle_chords(x, y) + rest);
        lemma_chords_contains(x, y, p);
        lemma_chords_contains(x, y, flip_x(p));
        lemma_chords_contains(x, y, flip_y(p));
        lemma_chords_contains(x, y, swap_xy(p));
        if !circle_chords(x, y).contains(p) {
            if x * x + y * y <= s * s {
                lemma_walk_facts(s, x, y + 1, p);
            } else {
                lemma_walk_facts(s, x - 1, y, p);
            }
        }
    }
}

/// A circle's offsets are symmetric: reflecting one across either axis or
/// across the diagonal gives another offset of the same circle.
pub proof fn lemma_circle_is_symmetric(size: u32, p: Coordinate)
    requires
        circle_size_ok(size),
        circle_area(size).contains(p),
    ensures
        circle_area(size).contains(flip_x(p)),
        circle_area(size).contains(flip_y(p)),
        circle_area(size).contains(swap_xy(p)),
{
    let m = size % 65536;
    lemma_walk_facts(m as int, m - 1, 0, p);
}

/// A circle's offsets stay within `size - 1` of the centre along each axis
/// (size taken modulo 65536, as the `i16` arithmetic sees it).
pub proof fn lemma_circle_is_bounded(size: u32, p: Coordinate)
    requires
        circle_size_ok(size),
        circle_area(size).contains(p),
    ensures
        iabs(p.x as int) < size % 65536,
        iabs(p.y as int) < size % 65536,
{
    let m = size % 65536;
    lemma_walk_facts(m as int, m - 1, 0, p);
}

/// A circle of a size that the `i16` arithmetic draws covers its centre and
/// the ends of its horizontal diameter.
pub proof fn lemma_circle_covers_centre(size: u32)
    requires
        circle_size_ok(size),
        1 <= size % 65536 <= 16383,
    ensures
        circle_area(size).contains(Coordinate { x: 0, y: 0 }),
        circle_area(size).contains(point(size % 65536 - 1, 0)),
        circle_area(size).contains(point(1 - size % 65536, 0)),
{
    broadcast use vstd::seq_lib::lemma_seq_concat_contains_all_elements;

    let s = (size % 65536) as int;
    lemma_chords_contains(s - 1, 0, Coordinate { x: 0, y: 0 });
    lemma_chords_contains(s - 1, 0, point(s - 1, 0));
    lemma_chords_contains(s - 1, 0, point(1 - s, 0));
    let rest = if (s - 1) * (s - 1) + 0 * 0 <= s * s {
        circle_walk(s, s - 1, 1)
    } else {
        circle_walk(s, s - 2, 0)
    };
    assert(circle_walk(s, s - 1, 0) == circle_chords(s - 1, 0) + rest);
}

/// A square of a size that fits `i16` covers exactly the offsets from 0
/// (inclusive) to `size` (exclusive) on both axes.
pub proof fn lemma_square_covers_exactly(size: u32, p: Coordinate)
    requires
        size <= 32768,
    ensures
        square_area(size).contains(p) <==> (0 <= p.x < size && 0 <= p.y < size),
{
    if 0 <= p.x < size && 0 <= p.y < size {
        let k = p.x * size + p.y;
        assert(0 <= k < size * size) by (nonlinear_arith)
            requires
                k == p.x * size + p.y,
                0 <= p.x < size,
                0 <= p.y < size,
        ;
        lemma_fundamental_div_mod_converse(k, size as int, p.x as int, p.y as int);
        assert(square_area(size)[k] == p);
    }
    if square_area(size).contains(p) {
        let k = choose|k: int| 0 <= k < square_area(size).len() && square_area(size)[k] == p;
        vstd::arithmetic::div_mod::lemma_fundamental_div_mod(k, size as int);
        vstd::arithmetic::div_mod::lemma_mod_bound(k, size as int);
        assert(0 <= k / (size as int) < size) by (nonlinear_arith)
            requires
                0 <= k < size * size,
                k == size * (k / (size as int)) + k % (size as int),
                0 <= k % (size as int) < size,
        ;
    }
}

proof fn lemma_triangle_facts(s: int, count: int, p: Coordinate)
    requires
        1 <= s <= 32767,
        count <= s,
        triangle_lines(s, count).contains(p),
    ensures
        0 <= p.x < s,
        0 <= p.y <= s,
    decreases count,
{
    broadcast use vstd::seq_lib::lemma_seq_concat_contains_all_elements;

    if count > 0 {
        let a = Coordinate { x: (s / 2) as i16, y: 0 };
        let b = Coordinate { x: (count - 1) as i16, y: s as i16 };
        if line(a, b).contains(p) {
            let k = choose|k: int| 0 <= k < line(a, b).len() && line(a, b)[k] == p;
            lemma_line_point_in_box(a, b, k);
        } else {
            lemma_triangle_facts(s, count - 1, p);
        }
    }
}

/// A triangle of size `s` (after narrowing to `i16`) lies in the box from
/// `(0, 0)` to `(s - 1, s)`, and covers every point `(i, s)` of its base.
pub proof fn lemma_triangle_in_box(size: u32, p: Coordinate, i: int)
    requires
        (size as i16) >= 1,
        0 <= i < (size as i16),
    ensures
        triangle_area(size).contains(p) ==> 0 <= p.x < (size as i16) && 0 <= p.y <= (size
            as i16),
        triangle_area(size).contains(Coordinate { x: i as i16, y: size as i16 }),
{
    let s = (size as i16) as int;
    if triangle_area(size).contains(p) {
        lemma_triangle_facts(s, s, p);
    }
    lemma_triangle_base(s, s, i);
}

proof fn lemma_triangle_base(s: int, count: int, i: int)
    requires
        1 <= s <= 32767,
        0 <= i < count <= s,
    ensures
        triangle_lines(s, count).contains(Coordinate { x: i as i16, y: s as i16 }),
    decreases count,
{
    broadcast use vstd::seq_lib::lemma_seq_concat_contains_all_elements;

    let a = Coordinate { x: (s / 2) as i16, y: 0 };
    let b = Coordinate { x: (count - 1) as i16, y: s as i16 };
    if i == count - 1 {
        lemma_line_ends_at_second(a, b);
        lemma_line_point_in_box(a, b, line_steps(a, b));
        assert(line(a, b)[line(a, b).len() - 1] == b);
    } else {
        lemma_triangle_base(s, count - 1, i);
    }
}

/// The apex of a triangle of the given size: `(s / 2, 0)`, where `s` is the
/// size narrowed to `i16`.
pub open spec fn apex(size: u32) -> Coordinate {
    Coordinate { x: ((size as i16) / 2) as i16, y: 0 }
}

proof fn lemma_triangle_row0(s: int, count: int, p: Coordinate)
    requires
        1 <= s <= 32767,
        count <= s,
        triangle_lines(s, count).contains(p),
        p.y == 0,
    ensures
        p.x == s / 2,
    decreases count,
{
    broadcast use vstd::seq_lib::lemma_seq_concat_contains_all_elements;

    if count > 0 {
        let a = Coordinate { x: (s / 2) as i16, y: 0 };
        let b = Coordinate { x: (count - 1) as i16, y: s as i16 };
        if line(a, b).contains(p) {
            let k = choose|k: int| 0 <= k < line(a, b).len() && line(a, b)[k] == p;
            lemma_line_point_in_box(a, b, k);
            assert(iabs(b.x - a.x) < iabs(b.y - a.y));
            assert(line_point(a, b, k).y == k);
            assert(k == 0);
            lemma_line_starts_at_first(a, b);
        } else {
            lemma_triangle_row0(s, count - 1, p);
        }
    }
}

/// The apex of a triangle is centred over its base: a triangle of size `s`
/// (after narrowing to `i16`, at least 1) covers `(s / 2, 0)`, and that is
/// the only offset it covers in row 0. (`triangle_area` is what
/// `Triangle::area` returns.)
pub proof fn lemma_triangle_apex(size: u32, p: Coordinate)
    requires
        (size as i16) >= 1,
    ensures
        triangle_area(size).contains(apex(size)),
        triangle_area(size).contains(p) && p.y == 0 ==> p.x == (size as i16) / 2,
{
    broadcast use vstd::seq_lib::lemma_seq_concat_contains_all_elements;

    let s = (size as i16) as int;
    let a = Coordinate { x: (s / 2) as i16, y: 0 };
    let b = Coordinate { x: (s - 1) as i16, y: s as i16 };
    lemma_line_starts_at_first(a, b);
    assert(line(a, b).contains(a)) by {
        assert(line(a, b)[0] == a);
    }
    assert(triangle_lines(s, s) == triangle_lines(s, s - 1) + line(a, b));
    if triangle_area(size).contains(p) && p.y == 0 {
        lemma_triangle_row0(s, s, p);
    }
}

} // verus!
