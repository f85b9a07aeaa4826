//! Builds graphs of positioned nodes and groups, and the pixel shapes and
//! connecting lines that draw them onto an image.
use vstd::prelude::*;

pub mod tools;
pub mod data;
pub mod coordinates;
pub mod shape;
pub mod node;
pub mod group;
pub mod canvas;
pub mod draw;
pub mod network;
pub mod image_map;

pub use shape::{Circle, Shape, Square, Triangle};
pub use node::{Link, Location, Node};
pub use group::Group;
pub use network::Network;
pub use draw::Draw;
pub use image_map::ImageMap;
pub use canvas::Canvas;

verus! {

/// Holds a position used for nodes and groups.
#[derive(Debug, Copy, Clone, Default, PartialEq, Eq, Structural)]
pub struct Coordinate {
    pub x: i16,
    pub y: i16,
}

/// Absolute difference of two integers.
pub open spec fn abs_diff(a: int, b: int) -> int {
    if a >= b { a - b } else { b - a }
}

/// A colour: red, green, blue and alpha channels.
#[derive(Debug, Copy, Clone, PartialEq, Eq)]
pub struct Color {
    pub data: [u8; 4],
}

impl Coordinate {
    /// Constructs a Coordinate.
    pub fn new(x: i16, y: i16) -> (c: Coordinate)
        ensures
            c.x == x,
            c.y == y,
    {
        Coordinate { x, y }
    }

    /// Whether `diff` of the two coordinates stays within `i16`.
    pub open spec fn diff_fits(self, other: Coordinate) -> bool {
        &&& abs_diff(self.x as int, other.x as int) <= i16::MAX
        &&& abs_diff(self.y as int, other.y as int) <= i16::MAX
    }

    /// Converts a list of `(x, y)` pairs to coordinates.
    pub fn from_list(list: &[(i16, i16)]) -> (v: Vec<Coordinate>)
        ensures
            v@.len() == list@.len(),
            forall|i: int| 0 <= i < list@.len() ==> v@[i] == coordinates::coordinate_at(list@, i),
    {
        coordinates::from_list(list, &|c: Coordinate, _i: usize| -> (r: Coordinate)
            ensures
                r == c,
            { c })
    }

    /// Calculates the difference in x and in y of two coordinates, as distances.
    pub fn diff(self, other: Coordinate) -> (d: (i16, i16))
        requires
            self.diff_fits(other),
        ensures
            d.0 == abs_diff(self.x as int, other.x as int),
            d.1 == abs_diff(self.y as int, other.y as int),
    {
        let dx: i16 = if self.x >= other.x { self.x - other.x } else { other.x - self.x };
        let dy: i16 = if self.y >= other.y { self.y - other.y } else { other.y - self.y };
        (dx, dy)
    }
}

/// `diff` is symmetric: the distances from `a` to `b` are those from `b` to
/// `a`, and a coordinate is at distance 0 from itself.
pub proof fn lemma_diff_symmetric(a: Coordinate, b: Coordinate)
    ensures
        a.diff_fits(b) == b.diff_fits(a),
        abs_diff(a.x as int, b.x as int) == abs_diff(b.x as int, a.x as int),
        abs_diff(a.y as int, b.y as int) == abs_diff(b.y as int, a.y as int),
        a.diff_fits(a),
        abs_diff(a.x as int, a.x as int) == 0,
        abs_diff(a.y as int, a.y as int) == 0,
{
}

} // verus!
