//! Groups: a settings node that positions and styles a set of child nodes.
use vstd::prelude::*;
use crate::{Coordinate, Color};
use crate::coordinates::{coordinate_at, from_list, gen_radius, placeable, radius_fits, sq_dist};
use crate::data::str_hash;
use crate::data::{letter, letter_name, max_named};
use crate::node::{black, is_new_node, Link, Location, Node};

verus! {

/// Holds a set of nodes and applies properties to all child nodes when drawn.
/// The group itself has no displayed output and is not visible.
#[derive(Clone, Debug)]
pub struct Group<'a, 'b> {
    pub settings: Node<'b>,
    pub nodes: Vec<Node<'a>>,
}

/// The lower corner of the box that holds `(0, 0)` and the lower corner of the
/// first `k` extents in `nodes` (each coordinate taken separately).
pub open spec fn low_corner<'a>(nodes: Seq<Node<'a>>, k: int) -> (int, int)
    decreases k,
{
    if k <= 0 {
        (0, 0)
    } else {
        let (x, y) = low_corner(nodes, k - 1);
        let c = nodes[k - 1].extent().0;
        (if c.x < x { c.x as int } else { x }, if c.y < y { c.y as int } else { y })
    }
}

/// The upper corner of the box that holds `(0, 0)` and the upper corner of the
/// first `k` extents in `nodes` (each coordinate taken separately).
pub open spec fn high_corner<'a>(nodes: Seq<Node<'a>>, k: int) -> (int, int)
    decreases k,
{
    if k <= 0 {
        (0, 0)
    } else {
        let (x, y) = high_corner(nodes, k - 1);
        let c = nodes[k - 1].extent().1;
        (if c.x > x { c.x as int } else { x }, if c.y > y { c.y as int } else { y })
    }
}

/// The box `get_parameters` returns holds `(0, 0)` and the position of every
/// node of the group.
pub proof fn lemma_group_extent_holds_nodes<'a, 'b>(g: Group<'a, 'b>, i: int)
    requires
        0 <= i < g.nodes@.len(),
    ensures
        g.extent().0.x <= 0 <= g.extent().1.x,
        g.extent().0.y <= 0 <= g.extent().1.y,
        g.extent().0.x <= g.nodes@[i].geo.x <= g.extent().1.x,
        g.extent().0.y <= g.nodes@[i].geo.y <= g.extent().1.y,
{
    lemma_corners_hold(g.nodes@, g.nodes@.len() as int, i);
}

proof fn lemma_corners_attained<'a>(nodes: Seq<Node<'a>>, k: int)
    requires
        0 <= k <= nodes.len(),
    ensures
        low_corner(nodes, k).0 == 0 || exists|i: int|
            0 <= i < k && low_corner(nodes, k).0 == (#[trigger] nodes[i]).geo.x,
        low_corner(nodes, k).1 == 0 || exists|i: int|
            0 <= i < k && low_corner(nodes, k).1 == (#[trigger] nodes[i]).geo.y,
        high_corner(nodes, k).0 == 0 || exists|i: int|
            0 <= i < k && high_corner(nodes, k).0 == (#[trigger] nodes[i]).geo.x,
        high_corner(nodes, k).1 == 0 || exists|i: int|
            0 <= i < k && high_corner(nodes, k).1 == (#[trigger] nodes[i]).geo.y,
    decreases k,
{
    if k > 0 {
        lemma_corners_attained(nodes, k - 1);
        let last = nodes[k - 1];
        assert(last.extent() == (last.geo, last.geo));
        assert(nodes[k - 1] == last);
    }
}

/// The box `get_parameters` returns is the smallest that holds `(0, 0)` and
/// every node: each of its sides lies at 0 or at the position of some node.
pub proof fn lemma_group_extent_is_tight<'a, 'b>(g: Group<'a, 'b>)
    ensures
        g.extent().0.x == 0 || exists|i: int|
            0 <= i < g.nodes@.len() && g.extent().0.x == (#[trigger] g.nodes@[i]).geo.x,
        g.extent().0.y == 0 || exists|i: int|
            0 <= i < g.nodes@.len() && g.extent().0.y == (#[trigger] g.nodes@[i]).geo.y,
        g.extent().1.x == 0 || exists|i: int|
            0 <= i < g.nodes@.len() && g.extent().1.x == (#[trigger] g.nodes@[i]).geo.x,
        g.extent().1.y == 0 || exists|i: int|
            0 <= i < g.nodes@.len() && g.extent().1.y == (#[trigger] g.nodes@[i]).geo.y,
{
    let n = g.nodes@.len() as int;
    lemma_corners_attained(g.nodes@, n);
    if n > 0 {
        lemma_corners_hold(g.nodes@, n, 0);
    } else {
        assert(low_corner(g.nodes@, 0) == (0int, 0int));
        assert(high_corner(g.nodes@, 0) == (0int, 0int));
    }
}

proof fn lemma_corners_hold<'a>(nodes: Seq<Node<'a>>, k: int, i: int)
    requires
        0 <= i < k <= nodes.len(),
    ensures
        low_corner(nodes, k).0 <= 0 <= high_corner(nodes, k).0,
        low_corner(nodes, k).1 <= 0 <= high_corner(nodes, k).1,
        low_corner(nodes, k).0 <= nodes[i].geo.x <= high_corner(nodes, k).0,
        low_corner(nodes, k).1 <= nodes[i].geo.y <= high_corner(nodes, k).1,
        i16::MIN <= low_corner(nodes, k).0 && high_corner(nodes, k).0 <= i16::MAX,
        i16::MIN <= low_corner(nodes, k).1 && high_corner(nodes, k).1 <= i16::MAX,
    decreases k,
{
    if i < k - 1 {
        lemma_corners_hold(nodes, k - 1, i);
    } else if k > 1 {
        lemma_corners_hold(nodes, k - 1, 0);
    } else {
        assert(low_corner(nodes, 0) == (0int, 0int));
        assert(high_corner(nodes, 0) == (0int, 0int));
    }
}

/// The size a node is drawn at when it has no radius of its own: 4.
pub open spec fn node_size<'a>(n: Node<'a>) -> u32 {
    match n.radius {
        Some(r) => r,
        None => 4,
    }
}

/// The largest `node_size` among the first `k` of `nodes`, or 0 if `k` is 0.
pub open spec fn largest_size<'a>(nodes: Seq<Node<'a>>, k: int) -> u32
    decreases k,
{
    if k <= 0 {
        0
    } else {
        let m = largest_size(nodes, k - 1);
        let s = node_size(nodes[k - 1]);
        if s > m { s } else { m }
    }
}

impl<'a, 'b> Location for Group<'a, 'b> {
    open spec fn location(&self) -> Coordinate {
        self.settings.geo
    }

    open spec fn extent(&self) -> (Coordinate, Coordinate) {
        let (lx, ly) = low_corner(self.nodes@, self.nodes@.len() as int);
        let (hx, hy) = high_corner(self.nodes@, self.nodes@.len() as int);
        (Coordinate { x: lx as i16, y: ly as i16 }, Coordinate { x: hx as i16, y: hy as i16 })
    }

    fn get_coordinate(&self) -> (c: Coordinate) {
        self.settings.get_coordinate()
    }

    /// The box that holds `(0, 0)` and every node of the group.
    fn get_parameters(&self) -> (p: (Coordinate, Coordinate)) {
        let mut min_x: i16 = 0;
        let mut min_y: i16 = 0;
        let mut max_x: i16 = 0;
        let mut max_y: i16 = 0;
        let mut i: usize = 0;
        while i < self.nodes.len()
            invariant
                i <= self.nodes@.len(),
                (min_x as int, min_y as int) == low_corner(self.nodes@, i as int),
                (max_x as int, max_y as int) == high_corner(self.nodes@, i as int),
            decreases self.nodes@.len() - i,
        {
            let (min, max) = self.nodes[i].get_parameters();
            max_x = if max.x > max_x { max.x } else { max_x };
            min_x = if min.x < min_x { min.x } else { min_x };
            max_y = if max.y > max_y { max.y } else { max_y };
            min_y = if min.y < min_y { min.y } else { min_y };
            i = i + 1;
        }
        (Coordinate::new(min_x, min_y), Coordinate::new(max_x, max_y))
    }
}

impl<'a, 'b> crate::node::Hash for Group<'a, 'b> {
    open spec fn hash_value(&self) -> u64 {
        self.settings.hash
    }

    fn get_hash(&self) -> (h: u64) {
        self.settings.get_hash()
    }
}

impl<'a, 'b> Group<'a, 'b> {
    /// Constructs a new, empty group named `name` at `coordinates`.
    pub fn new(name: &str, coordinates: Coordinate) -> (g: Group<'a, 'b>)
        ensures
            is_new_node(g.settings, name@, coordinates),
            g.nodes@.len() == 0,
    {
        Group { settings: Node::new(name, coordinates), nodes: Vec::new() }
    }

    /// Converts a list of `(x, y)` pairs to groups, named "A", "B", ... in order.
    pub fn from_list<'z, 'k>(list: &[(i16, i16)]) -> (v: Vec<Group<'z, 'k>>)
        requires
            list@.len() <= max_named(),
        ensures
            v@.len() == list@.len(),
            forall|i: int|
                0 <= i < list@.len() ==> is_new_node(
                    (#[trigger] v@[i]).settings,
                    letter_name(i),
                    coordinate_at(list@, i),
                ) && v@[i].nodes@.len() == 0,
    {
        from_list(list, &Group::lettered)
    }

    /// The group that `from_list` builds for the pair at index `i`.
    fn lettered(c: Coordinate, i: usize) -> (g: Group<'a, 'b>)
        requires
            i < max_named(),
        ensures
            is_new_node(g.settings, letter_name(i as int), c),
            g.nodes@.len() == 0,
    {
        Group::new(letter(i).as_str(), c)
    }

    /// Links this group's settings node to the settings node of `other`.
    pub fn link<L: Location>(&mut self, other: &'b Group)
        ensures
            final(self).settings.connections@ == old(self).settings.connections@.push(
                Link { to: &other.settings, color: black() },
            ),
            final(self).nodes@ == old(self).nodes@,
            final(self).settings.hash == old(self).settings.hash,
            final(self).settings.geo == old(self).settings.geo,
            final(self).settings.color == old(self).settings.color,
            final(self).settings.radius == old(self).settings.radius,
    {
        self.settings.link(&other.settings);
    }

    /// Returns the nodes that exist inside the group.
    pub fn get_nodes(&self) -> (v: &Vec<Node<'a>>)
        ensures
            v@ == self.nodes@,
    {
        &self.nodes
    }

    /// Removes all non-essentials from the standard implementation: an
    /// unnamed group at `(x, y)`.
    pub fn new_simple(x: i16, y: i16) -> (g: Group<'a, 'b>)
        ensures
            is_new_node(g.settings, Seq::empty(), Coordinate { x, y }),
            g.nodes@.len() == 0,
    {
        proof {
            reveal_strlit("");
            assert(""@ =~= Seq::<char>::empty());
        }
        Group::new("", Coordinate::new(x, y))
    }

    /// Pushes a node to the group.
    pub fn push(&mut self, node: Node<'a>)
        ensures
            final(self).nodes@ == old(self).nodes@.push(node),
            final(self).settings == old(self).settings,
    {
        self.nodes.push(node);
    }

    /// The radius `get_dynamic_radius` returns.
    pub open spec fn dynamic_radius(&self) -> u32 {
        match self.settings.radius {
            Some(x) => x,
            None => (7 + (self.nodes@.len() as u32) / 2) as u32,
        }
    }

    /// Whether `added` is `old` with one node added at the end: named `name`,
    /// at `geo`, in `color`, with the group's radius and without links.
    pub open spec fn adds_node(
        old: Group<'a, 'b>,
        added: Group<'a, 'b>,
        name: Seq<char>,
        geo: Coordinate,
        color: Color,
    ) -> bool {
        let n = added.nodes@.last();
        &&& added.settings == old.settings
        &&& added.nodes@.len() == old.nodes@.len() + 1
        &&& added.nodes@.subrange(0, old.nodes@.len() as int) == old.nodes@
        &&& n.hash == str_hash(name)
        &&& n.geo == geo
        &&& n.color == color
        &&& n.radius == old.settings.radius
        &&& n.connections@.len() == 0
    }

    /// Constructs a new node for the group: named `name`, at `geo`, in
    /// `color` (the shade of the group's colour at `geo`), with the group's
    /// radius; adds it to the group and returns it.
    pub fn new_node_inner(&mut self, geo: Coordinate, name: &str, color: Color) -> (n: &Node<'a>)
        ensures
            Group::adds_node(*old(self), *final(self), name@, geo, color),
            *n == final(self).nodes@.last(),
    {
        let mut node = Node::new(name, geo);
        node.color = color;
        node.radius = self.settings.radius;
        self.push(node);
        assert(self.nodes@.subrange(0, self.nodes@.len() - 1) =~= old(self).nodes@);
        &self.nodes[self.nodes.len() - 1]
    }

    /// Adds a node named `name` at a random distance below the group's
    /// dynamic radius from its centre (placed by `gen_radius`), shaded by `shade` for its position.
    pub fn new_node<F: Fn(Coordinate) -> Color>(&mut self, name: &str, shade: &F)
        requires
            old(self).dynamic_radius() > 0,
            radius_fits(old(self).settings.geo, old(self).dynamic_radius()),
            forall|c: Coordinate| shade.requires((c,)),
        ensures
            exists|geo: Coordinate, color: Color|
                Group::adds_node(*old(self), *final(self), name@, geo, color) && shade.ensures((geo,), color)
                    && placeable(old(self).settings.geo, 0, old(self).dynamic_radius() as int, geo)
                    && sq_dist(old(self).settings.geo, geo) < old(self).dynamic_radius()
                    * old(self).dynamic_radius(),
    {
        let geo = gen_radius(self.settings.geo, 0, self.get_dynamic_radius());
        let color = shade(geo);
        self.new_node_inner(geo, name, color);
    }

    /// Adds a node named `name` at a random distance below `min + 5` from the
    /// group's centre, shaded by `shade` for its position, and returns it.
    pub fn new_node_min_auto<F: Fn(Coordinate) -> Color>(&mut self, name: &str, min: u32, shade: &F) -> (n:
        &Node<'a>)
        requires
            min <= u32::MAX - 5,
            radius_fits(old(self).settings.geo, (min + 5) as u32),
            forall|c: Coordinate| shade.requires((c,)),
        ensures
            *n == final(self).nodes@.last(),
            exists|geo: Coordinate, color: Color|
                Group::adds_node(*old(self), *final(self), name@, geo, color) && shade.ensures((geo,), color)
                    && placeable(old(self).settings.geo, 0, min + 5, geo) && sq_dist(
                    old(self).settings.geo,
                    geo,
                ) < (min + 5) * (min + 5),
    {
        let geo = gen_radius(self.settings.geo, 0, min + 5);
        let color = shade(geo);
        self.new_node_inner(geo, name, color)
    }

    /// Adds a node named `name` at a random distance of at least `min` and
    /// below `max` from the group's centre, shaded by `shade` for its
    /// position, and returns it.
    pub fn new_node_min_max<F: Fn(Coordinate) -> Color>(
        &mut self,
        name: &str,
        min: u32,
        max: u32,
        shade: &F,
    ) -> (n: &Node<'a>)
        requires
            min < max,
            radius_fits(old(self).settings.geo, max),
            forall|c: Coordinate| shade.requires((c,)),
        ensures
            *n == final(self).nodes@.last(),
            exists|geo: Coordinate, color: Color|
                Group::adds_node(*old(self), *final(self), name@, geo, color) && shade.ensures((geo,), color)
                    && placeable(old(self).settings.geo, min as int, max as int, geo) && min * min
                    <= sq_dist(old(self).settings.geo, geo) < max * max,
    {
        let geo = gen_radius(self.settings.geo, min, max);
        let color = shade(geo);
        self.new_node_inner(geo, name, color)
    }

    /// Returns a dynamic radius based on the number of nodes in the group:
    /// the settings' radius if it has one, otherwise 7 plus half the number of
    /// nodes (counted as a `u32`).
    pub fn get_dynamic_radius(&self) -> (r: u32)
        ensures
            r == self.dynamic_radius(),
    {
        match self.settings.radius {
            Some(x) => x,
            None => 7 + #[verifier::truncate] (self.nodes.len() as u32) / 2,
        }
    }
}

} // verus!
