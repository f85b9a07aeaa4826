//! Nodes, the links between them, and the traits for locating and
//! identifying the things a network holds.
use vstd::prelude::*;
use vstd::std_specs::cmp::{PartialEqSpec, PartialEqSpecImpl};
use crate::{Coordinate, Color};
use crate::coordinates::{coordinate_at, from_list};
use crate::data::{calculate_hash, letter, letter_name, max_named, str_hash};

verus! {

/// Something with a position on the map.
pub trait Location {
    /// The position `get_coordinate` returns.
    spec fn location(&self) -> Coordinate;

    /// The lowest and highest corners `get_parameters` returns.
    spec fn extent(&self) -> (Coordinate, Coordinate);

    fn get_coordinate(&self) -> (c: Coordinate)
        ensures
            c == self.location(),
    ;

    fn get_parameters(&self) -> (p: (Coordinate, Coordinate))
        ensures
            p == self.extent(),
    ;
}

/// Something identified by a 64-bit hash.
pub trait Hash {
    /// The hash `get_hash` returns.
    spec fn hash_value(&self) -> u64;

    fn get_hash(&self) -> (h: u64)
        ensures
            h == self.hash_value(),
    ;
}

/// A positioned object that can be drawn on an image.
#[derive(Debug)]
pub struct Node<'a> {
    pub hash: u64,
    pub geo: Coordinate,
    pub color: Color,
    pub radius: Option<u32>,
    pub connections: Vec<Link<'a, Node<'a>>>,
}

/// A one-way connection to another located object, drawn in a colour.
#[derive(Debug)]
pub struct Link<'a, L: 'a + Location> {
    pub to: &'a L,
    pub color: Color,
}

impl<'a, L: 'a + Location> Clone for Link<'a, L> {
    fn clone(&self) -> (c: Self)
        ensures
            c == *self,
    {
        Link { to: self.to, color: self.color }
    }
}

impl<'a> Clone for Node<'a> {
    fn clone(&self) -> (c: Self)
        ensures
            c.hash == self.hash,
            c.geo == self.geo,
            c.color == self.color,
            c.radius == self.radius,
            c.connections@ == self.connections@,
    {
        let mut connections: Vec<Link<'a, Node<'a>>> = Vec::new();
        let mut i: usize = 0;
        while i < self.connections.len()
            invariant
                i <= self.connections@.len(),
                connections@ == self.connections@.subrange(0, i as int),
            decreases self.connections@.len() - i,
        {
            connections.push(self.connections[i].clone());
            i = i + 1;
            assert(connections@ =~= self.connections@.subrange(0, i as int));
        }
        assert(self.connections@.subrange(0, i as int) =~= self.connections@);
        Node { hash: self.hash, geo: self.geo, color: self.color, radius: self.radius, connections }
    }
}

impl<'a> Location for Node<'a> {
    open spec fn location(&self) -> Coordinate {
        self.geo
    }

    open spec fn extent(&self) -> (Coordinate, Coordinate) {
        (self.geo, self.geo)
    }

    fn get_coordinate(&self) -> (c: Coordinate) {
        self.geo
    }

    fn get_parameters(&self) -> (p: (Coordinate, Coordinate)) {
        (self.geo, self.geo)
    }
}

impl<'a> Hash for Node<'a> {
    open spec fn hash_value(&self) -> u64 {
        self.hash
    }

    fn get_hash(&self) -> (h: u64) {
        self.hash
    }
}

/// Whether some link of `links` leads to a node with hash `h`, directly or
/// through the links of the node it leads to.
pub open spec fn links_reach<'a>(links: Seq<Link<'a, Node<'a>>>, h: u64) -> bool
    decreases links,
{
    if links.len() == 0 {
        false
    } else {
        ||| links[0].to.hash == h
        ||| node_reaches(*links[0].to, h)
        ||| links_reach(links.subrange(1, links.len() as int), h)
    }
}

/// Whether the links of `n` lead, directly or not, to a node with hash `h`.
pub open spec fn node_reaches<'a>(n: Node<'a>, h: u64) -> bool
    decreases n,
{
    links_reach(n.connections@, h)
}

/// Whether some link of `links` leads to a node with hash `h`, directly or
/// through the links of the node it leads to: the same as
/// `links_reach`, phrased over the positions of `links`.
pub open spec fn some_link_reaches<'a>(links: Seq<Link<'a, Node<'a>>>, h: u64) -> bool {
    exists|j: int| 0 <= j < links.len() && #[trigger] link_reaches(links[j], h)
}

/// Whether `link` leads to a node with hash `h`, directly or through the
/// links of the node it leads to.
pub open spec fn link_reaches<'a>(link: Link<'a, Node<'a>>, h: u64) -> bool {
    link.to.hash == h || node_reaches(*link.to, h)
}

proof fn lemma_links_reach_exists<'a>(links: Seq<Link<'a, Node<'a>>>, h: u64)
    ensures
        links_reach(links, h) <==> some_link_reaches(links, h),
    decreases links.len(),
{
    if links.len() > 0 {
        let rest = links.subrange(1, links.len() as int);
        lemma_links_reach_exists(rest, h);
        assert(links_reach(links, h) == (links[0].to.hash == h || node_reaches(*links[0].to, h)
            || links_reach(rest, h)));
        if link_reaches(links[0], h) {
            assert(link_reaches(links[0], h));
        }
        if some_link_reaches(rest, h) {
            let j = choose|j: int| 0 <= j < rest.len() && #[trigger] link_reaches(rest[j], h);
            assert(links[j + 1] == rest[j]);
            assert(link_reaches(links[j + 1], h));
        }
        if some_link_reaches(links, h) {
            let j = choose|j: int| 0 <= j < links.len() && #[trigger] link_reaches(links[j], h);
            if j > 0 {
                assert(rest[j - 1] == links[j]);
                assert(link_reaches(rest[j - 1], h));
            }
        }
    }
}

proof fn lemma_links_reach_push<'a>(links: Seq<Link<'a, Node<'a>>>, l: Link<'a, Node<'a>>, h: u64)
    ensures
        some_link_reaches(links, h) ==> some_link_reaches(links.push(l), h),
        link_reaches(l, h) ==> some_link_reaches(links.push(l), h),
{
    if some_link_reaches(links, h) {
        let j = choose|j: int| 0 <= j < links.len() && #[trigger] link_reaches(links[j], h);
        assert(links.push(l)[j] == links[j]);
    }
    assert(links.push(l)[links.len() as int] == l);
}

/// Linking a node to `other` connects it to `other`, and keeps every
/// connection it had: after `a.link(&b)`, `a.is_connected(&b)` is true.
pub proof fn lemma_link_connects<'a>(before: Node<'a>, after: Node<'a>, other: &'a Node<'a>, h: u64)
    requires
        after.connections@ == before.connections@.push(Link { to: other, color: black() }),
    ensures
        node_reaches(after, other.hash),
        node_reaches(before, h) ==> node_reaches(after, h),
{
    lemma_links_reach_exists(before.connections@, h);
    lemma_links_reach_exists(after.connections@, h);
    lemma_links_reach_exists(after.connections@, other.hash);
    let l = Link { to: other, color: black() };
    lemma_links_reach_push(before.connections@, l, h);
    lemma_links_reach_push(before.connections@, l, other.hash);
}

/// Nodes are identified by their hash.
impl<'a> PartialEq for Node<'a> {
    fn eq(&self, other: &Node) -> (r: bool) {
        self.hash == other.hash
    }
}

impl<'a> PartialEqSpecImpl for Node<'a> {
    open spec fn obeys_eq_spec() -> bool {
        true
    }

    open spec fn eq_spec(&self, other: &Node) -> bool {
        self.hash == other.hash
    }
}

/// Two links are equal when they lead to equal objects.
impl<'a, L: Location + PartialEq> PartialEq for Link<'a, L> {
    fn eq(&self, other: &Link<L>) -> (r: bool) {
        self.to == other.to
    }
}

impl<'a, L: Location + PartialEq> PartialEqSpecImpl for Link<'a, L> {
    open spec fn obeys_eq_spec() -> bool {
        L::obeys_eq_spec()
    }

    open spec fn eq_spec(&self, other: &Link<L>) -> bool {
        self.to.eq_spec(other.to)
    }
}

/// Opaque black, the colour new nodes and links start with.
pub open spec fn black() -> Color {
    Color { data: [0, 0, 0, 255] }
}

/// Whether `n` is a node as `Node::new(name, geo)` builds it: hashed from its
/// name, black, without a radius of its own and without links.
pub open spec fn is_new_node<'a>(n: Node<'a>, name: Seq<char>, geo: Coordinate) -> bool {
    &&& n.hash == str_hash(name)
    &&& n.geo == geo
    &&& n.color == black()
    &&& n.radius is None
    &&& n.connections@.len() == 0
}

impl<'a, L: 'a + Location> Link<'a, L> {
    /// Creates a new black link to `to`.
    pub fn new(to: &'a L) -> (l: Link<'a, L>)
        ensures
            l.to == to,
            l.color == black(),
    {
        Link { to, color: Color { data: [0, 0, 0, 255] } }
    }
}

impl<'a> Node<'a> {
    /// Constructs a node named `name` (identified by the name's hash) at `geo`.
    pub fn new(name: &str, geo: Coordinate) -> (n: Node<'a>)
        ensures
            is_new_node(n, name@, geo),
    {
        Node {
            hash: calculate_hash(name),
            geo,
            color: Color { data: [0, 0, 0, 255] },
            radius: None,
            connections: Vec::new(),
        }
    }

    /// Converts a list of `(x, y)` pairs to nodes, named "A", "B", ... in order.
    pub fn from_list<'z>(list: &[(i16, i16)]) -> (v: Vec<Node<'z>>)
        requires
            list@.len() <= max_named(),
        ensures
            v@.len() == list@.len(),
            forall|i: int|
                0 <= i < list@.len() ==> is_new_node(
                    #[trigger] v@[i],
                    letter_name(i),
                    coordinate_at(list@, i),
                ),
    {
        from_list(list, &Node::lettered)
    }

    /// The node that `from_list` builds for the pair at index `i`.
    fn lettered(c: Coordinate, i: usize) -> (n: Node<'a>)
        requires
            i < max_named(),
        ensures
            is_new_node(n, letter_name(i as int), c),
    {
        Node::new(letter(i).as_str(), c)
    }

    /// Links this node to `other`, with a new black link.
    pub fn link(&mut self, other: &'a Node<'a>)
        ensures
            final(self).connections@ == old(self).connections@.push(Link { to: other, color: black() }),
            final(self).hash == old(self).hash,
            final(self).geo == old(self).geo,
            final(self).color == old(self).color,
            final(self).radius == old(self).radius,
    {
        self.connections.push(Link::new(other));
    }

    /// Looks through all connected nodes, following their links in turn, and
    /// returns whether `other` is among them.
    pub fn is_connected(&self, other: &Node) -> (r: bool)
        ensures
            r == node_reaches(*self, other.hash),
        decreases *self,
    {
        proof {
            lemma_links_reach_exists(self.connections@, other.hash);
        }
        let mut i: usize = 0;
        while i < self.connections.len()
            invariant
                i <= self.connections@.len(),
                node_reaches(*self, other.hash) <==> some_link_reaches(
                    self.connections@,
                    other.hash,
                ),
                forall|j: int|
                    0 <= j < i ==> !#[trigger] link_reaches(self.connections@[j], other.hash),
            decreases self.connections@.len() - i,
        {
            let link = &self.connections[i];
            assert(decreases_to!(*self => *self.connections@[i as int].to));
            let direct = link.to == other;
            if direct || link.to.is_connected(other) {
                assert(link_reaches(self.connections@[i as int], other.hash));
                return true;
            }
            assert(!link_reaches(self.connections@[i as int], other.hash));
            i = i + 1;
        }
        false
    }
}

} // verus!
