//! Networks of drawable, identifiable elements, and paths through networks
//! of nodes.
use vstd::prelude::*;
use crate::Coordinate;
use crate::data::str_hash;
use crate::draw::Draw;
use crate::node::{Location, Node};

verus! {

/// A set of drawable, identifiable elements.
#[derive(Clone, Debug)]
pub struct Network<T: Draw + crate::node::Hash> {
    pub elements: Vec<T>,
}

impl<T: Draw + crate::node::Hash> Network<T> {
    /// Constructs a network of the given elements.
    pub fn new(elements: Vec<T>) -> (n: Network<T>)
        ensures
            n.elements@ == elements@,
    {
        Network { elements }
    }
}

/// The position of the first node of `nodes` with hash `h`, if any.
pub open spec fn first_with_hash<'a>(nodes: Seq<Node<'a>>, h: u64) -> Option<int> {
    if exists|i: int| 0 <= i < nodes.len() && #[trigger] nodes[i].hash == h {
        Some(
            choose|i: int|
                0 <= i < nodes.len() && #[trigger] nodes[i].hash == h && forall|j: int|
                    0 <= j < i ==> #[trigger] nodes[j].hash != h,
        )
    } else {
        None
    }
}

/// The node reached from `n` by following the first link `k` times (`n`
/// itself once a node without links is reached).
pub open spec fn first_link_walk<'a>(n: Node<'a>, k: nat) -> Node<'a>
    decreases k,
{
    if k == 0 || n.connections@.len() == 0 {
        n
    } else {
        first_link_walk(*n.connections@[0].to, (k - 1) as nat)
    }
}

/// Whether following first links from `first` reaches a node at `goal`
/// after exactly `n` steps, passing only nodes elsewhere that have links.
pub open spec fn leg_reaches<'a>(first: Node<'a>, goal: Coordinate, n: nat) -> bool {
    &&& first_link_walk(first, n).geo == goal
    &&& forall|k: nat|
        k < n ==> (#[trigger] first_link_walk(first, k)).geo != goal && first_link_walk(
            first,
            k,
        ).connections@.len() > 0
}

/// The greatest number of steps `path_shortest_leg` takes.
pub open spec fn max_leg_steps() -> nat {
    100
}

/// The path `path_shortest_leg` returns from `first` when it reaches `goal`
/// after `n` steps: every node passed, each paired with the index 0 of the
/// link taken to it.
pub open spec fn leg_path<'a>(first: Node<'a>, n: nat) -> Seq<(usize, Node<'a>)> {
    Seq::new(n + 1, |k: int| (0usize, first_link_walk(first, k as nat)))
}

/// The pairs of `v` with the nodes behind their references.
pub open spec fn path_view<'a>(v: Seq<(usize, &'a Node<'a>)>) -> Seq<(usize, Node<'a>)> {
    v.map_values(|p: (usize, &'a Node<'a>)| (p.0, *p.1))
}

proof fn lemma_leg_unique<'a>(first: Node<'a>, goal: Coordinate, n: nat, m: nat)
    requires
        leg_reaches(first, goal, n),
        leg_reaches(first, goal, m),
    ensures
        n == m,
{
    if n < m {
        assert(first_link_walk(first, n).geo != goal);
    } else if m < n {
        assert(first_link_walk(first, m).geo != goal);
    }
}

/// `contains` and `contains_index` agree: some element has hash `h` exactly
/// when there is a first such element, and that one has hash `h` while every
/// element before it has another.
pub proof fn lemma_first_with_hash<'a>(nodes: Seq<Node<'a>>, h: u64)
    ensures
        (exists|i: int| 0 <= i < nodes.len() && #[trigger] nodes[i].hash == h) <==> first_with_hash(
            nodes,
            h,
        ) is Some,
        first_with_hash(nodes, h) matches Some(i) ==> 0 <= i < nodes.len() && nodes[i].hash == h
            && forall|j: int| 0 <= j < i ==> #[trigger] nodes[j].hash != h,
{
    if exists|i: int| 0 <= i < nodes.len() && #[trigger] nodes[i].hash == h {
        let i = choose|i: int| 0 <= i < nodes.len() && #[trigger] nodes[i].hash == h;
        lemma_least_with_hash(nodes, h, i);
    }
}

proof fn lemma_least_with_hash<'a>(nodes: Seq<Node<'a>>, h: u64, i: int)
    requires
        0 <= i < nodes.len(),
        nodes[i].hash == h,
    ensures
        exists|k: int|
            0 <= k < nodes.len() && #[trigger] nodes[k].hash == h && forall|j: int|
                0 <= j < k ==> #[trigger] nodes[j].hash != h,
    decreases i,
{
    if exists|j: int| 0 <= j < i && #[trigger] nodes[j].hash == h {
        let j = choose|j: int| 0 <= j < i && #[trigger] nodes[j].hash == h;
        lemma_least_with_hash(nodes, h, j);
    } else {
        assert(forall|j: int| 0 <= j < i ==> #[trigger] nodes[j].hash != h);
    }
}

proof fn lemma_walk_split<'a>(n: Node<'a>, k: nat)
    ensures
        first_link_walk(n, k + 1) == first_link_walk(first_link_walk(n, k), 1),
    decreases k,
{
    if k > 0 && n.connections@.len() > 0 {
        lemma_walk_split(*n.connections@[0].to, (k - 1) as nat);
    }
}

/// How a first-link leg is reached, step by step: after no step exactly
/// when the start is at the goal, and after `n + 1` steps exactly when the
/// start is elsewhere, has links, and the target of its link at index 0
/// reaches the goal after `n` steps.
pub proof fn lemma_leg_reaches_step<'a>(first: Node<'a>, goal: Coordinate, n: nat)
    ensures
        leg_reaches(first, goal, 0) <==> first.geo == goal,
        leg_reaches(first, goal, n + 1) <==> (first.geo != goal && first.connections@.len() > 0
            && leg_reaches(*first.connections@[0].to, goal, n)),
{
    assert(first_link_walk(first, 0) == first);
    if first.connections@.len() > 0 {
        let next = *first.connections@[0].to;
        assert forall|k: nat| #[trigger] first_link_walk(first, k + 1) == first_link_walk(next, k) by {}
        if leg_reaches(first, goal, n + 1) {
            assert(first_link_walk(first, (n + 1) as nat) == first_link_walk(next, n));
            assert forall|k: nat| k < n implies (#[trigger] first_link_walk(next, k)).geo != goal
                && first_link_walk(next, k).connections@.len() > 0 by {
                assert(first_link_walk(first, k + 1) == first_link_walk(next, k));
                assert(k + 1 < n + 1);
            }
            assert(first_link_walk(first, 0).geo != goal);
        }
        if first.geo != goal && leg_reaches(next, goal, n) {
            assert(first_link_walk(first, (n + 1) as nat) == first_link_walk(next, n));
            assert forall|k: nat| k < n + 1 implies (#[trigger] first_link_walk(first, k)).geo != goal
                && first_link_walk(first, k).connections@.len() > 0 by {
                if k > 0 {
                    assert(first_link_walk(first, ((k - 1) as nat) + 1) == first_link_walk(
                        next,
                        (k - 1) as nat,
                    ));
                }
            }
        }
    } else {
        if leg_reaches(first, goal, n + 1) {
            assert(first_link_walk(first, 0).connections@.len() > 0);
        }
    }
}

/// A first-link path follows the link at index 0 from each node to the
/// next: it starts at `first`, ends at the goal, and every node before the
/// last is elsewhere, has links, and is followed by the target of its first
/// link, recorded with index 0.
pub proof fn lemma_leg_path_follows_first_links<'a>(first: Node<'a>, goal: Coordinate, n: nat)
    requires
        leg_reaches(first, goal, n),
    ensures
        leg_path(first, n).len() == n + 1,
        leg_path(first, n)[0] == (0usize, first),
        leg_path(first, n)[n as int].1.geo == goal,
        forall|k: int|
            #![trigger leg_path(first, n)[k]]
            0 <= k < n ==> leg_path(first, n)[k].1.geo != goal && leg_path(first, n)[k].1.connections@.len()
                > 0 && leg_path(first, n)[k + 1] == (0usize, *leg_path(first, n)[k].1.connections@[0].to),
{
    assert(first_link_walk(first, 0) == first);
    assert forall|k: int|
        #![trigger leg_path(first, n)[k]]
        0 <= k < n implies leg_path(first, n)[k].1.geo != goal && leg_path(first, n)[k].1.connections@.len()
            > 0 && leg_path(first, n)[k + 1] == (0usize, *leg_path(first, n)[k].1.connections@[0].to) by {
        let m = first_link_walk(first, k as nat);
        assert(leg_path(first, n)[k] == (0usize, m));
        assert(m.geo != goal && m.connections@.len() > 0);
        lemma_walk_split(first, k as nat);
        assert(first_link_walk(m, 1) == first_link_walk(*m.connections@[0].to, 0));
        assert(leg_path(first, n)[k + 1] == (0usize, first_link_walk(first, (k + 1) as nat)));
    }
}

impl<'a> Network<Node<'a>> {
    /// The node `get_element` returns for an element identified by hash `h`.
    pub open spec fn element_with_hash(&self, h: u64) -> Option<Node<'a>> {
        match first_with_hash(self.elements@, h) {
            Some(i) => Some(self.elements@[i]),
            None => None,
        }
    }

    /// Returns whether some element has the hash of `element`.
    pub fn contains<H: crate::node::Hash>(&self, element: &H) -> (r: bool)
        ensures
            r == exists|i: int|
                0 <= i < self.elements@.len() && #[trigger] self.elements@[i].hash
                    == element.hash_value(),
    {
        let mut i: usize = 0;
        while i < self.elements.len()
            invariant
                i <= self.elements@.len(),
                forall|j: int| 0 <= j < i ==> #[trigger] self.elements@[j].hash != element.hash_value(),
            decreases self.elements@.len() - i,
        {
            if crate::node::Hash::get_hash(&self.elements[i]) == element.get_hash() {
                return true;
            }
            i = i + 1;
        }
        false
    }

    /// Returns the index of the first element with the hash of `element`.
    pub fn contains_index<H: crate::node::Hash>(&self, element: &H) -> (r: Option<usize>)
        ensures
            r matches Some(i) ==> i < self.elements@.len(),
            r matches Some(i) ==> first_with_hash(self.elements@, element.hash_value()) == Some(
                i as int,
            ),
            r is None ==> first_with_hash(self.elements@, element.hash_value()) is None,
    {
        let ghost h = element.hash_value();
        let mut i: usize = 0;
        while i < self.elements.len()
            invariant
                i <= self.elements@.len(),
                h == element.hash_value(),
                forall|j: int| 0 <= j < i ==> #[trigger] self.elements@[j].hash != h,
            decreases self.elements@.len() - i,
        {
            if crate::node::Hash::get_hash(&self.elements[i]) == element.get_hash() {
                let ghost c = choose|k: int|
                    0 <= k < self.elements@.len() && #[trigger] self.elements@[k].hash == h
                        && forall|j: int| 0 <= j < k ==> #[trigger] self.elements@[j].hash != h;
                assert(0 <= i < self.elements@.len() && self.elements@[i as int].hash == h
                    && forall|j: int| 0 <= j < i ==> #[trigger] self.elements@[j].hash != h);
                assert(c == i) by {
                    if c < i {
                        assert(self.elements@[c].hash != h);
                    }
                    if i < c {
                        assert(self.elements@[i as int].hash != h);
                    }
                }
                return Some(i);
            }
            i = i + 1;
        }
        None
    }

    /// Whether there is an element named `a` and it has links: where `path`
    /// calls its algorithm.
    pub open spec fn starts_with_links(&self, a: Seq<char>) -> bool {
        &&& self.element_with_hash(str_hash(a)) is Some
        &&& self.element_with_hash(str_hash(a)).unwrap().connections@.len() > 0
    }

    /// Whether following first links from the element named `a` reaches
    /// the position of the element named `b` within `max_leg_steps` steps,
    /// as `path_shortest_leg` needs.
    pub open spec fn leg_exists(&self, a: Seq<char>, b: Seq<char>) -> bool {
        &&& self.element_with_hash(str_hash(a)) is Some
        &&& self.element_with_hash(str_hash(b)) is Some
        &&& exists|n: nat|
            n <= max_leg_steps() && #[trigger] leg_reaches(
                self.element_with_hash(str_hash(a)).unwrap(),
                self.element_with_hash(str_hash(b)).unwrap().geo,
                n,
            )
    }

    /// Follows first links from `first` until a node at `goal` is reached,
    /// taking at most `max_leg_steps` steps; `None` when no such node is
    /// reached in time, or a node without links is reached first.
    fn walk_leg(first: &'a Node<'a>, goal: Coordinate) -> (r: Option<Vec<(usize, &'a Node<'a>)>>)
        ensures
            r is Some <==> exists|n: nat| n <= max_leg_steps() && #[trigger] leg_reaches(*first, goal, n),
            r matches Some(v) ==> forall|n: nat|
                #[trigger] leg_reaches(*first, goal, n) ==> path_view(v@) == leg_path(*first, n),
    {
        let mut node_path: Vec<(usize, &'a Node<'a>)> = Vec::new();
        let mut max_loop: i32 = 100;
        node_path.push((0, first));
        let mut current: &'a Node<'a> = first;
        assert(path_view(node_path@) =~= leg_path(*first, 0));
        while current.get_coordinate() != goal
            invariant
                0 <= max_loop <= 100,
                *current == first_link_walk(*first, (100 - max_loop) as nat),
                path_view(node_path@) == leg_path(*first, (100 - max_loop) as nat),
                forall|k: nat|
                    k < 100 - max_loop ==> (#[trigger] first_link_walk(*first, k)).geo != goal
                        && first_link_walk(*first, k).connections@.len() > 0,
            decreases max_loop,
        {
            let ghost k = (100 - max_loop) as nat;
            if max_loop <= 0 {
                assert forall|n: nat| n <= max_leg_steps() implies !#[trigger] leg_reaches(
                    *first,
                    goal,
                    n,
                ) by {
                    if leg_reaches(*first, goal, n) && n < k {
                        assert(first_link_walk(*first, n).geo != goal);
                    }
                }
                return None;
            }
            max_loop -= 1;
            let links = current.get_links();
            if links.len() == 0 {
                assert(first_link_walk(*first, k).connections@.len() == 0);
                assert forall|n: nat| n <= max_leg_steps() implies !#[trigger] leg_reaches(
                    *first,
                    goal,
                    n,
                ) by {
                    if leg_reaches(*first, goal, n) {
                        if n < k {
                            assert(first_link_walk(*first, n).geo != goal);
                        } else if n > k {
                            assert(first_link_walk(*first, k).connections@.len() > 0);
                        }
                    }
                }
                return None;
            }
            let next: &'a Node<'a> = links[0].to;
            let ghost before = node_path@;
            node_path.push((0, next));
            assert(path_view(node_path@) =~= path_view(before).push((0usize, *next)));
            current = next;
            proof {
                assert(first_link_walk(*first, k + 1) == first_link_walk(
                    first_link_walk(*first, k),
                    1,
                )) by {
                    lemma_walk_split(*first, k);
                }
                assert(*next == *first_link_walk(*first, k).connections@[0].to);
                let m = first_link_walk(*first, k);
                assert(first_link_walk(m, 1) == first_link_walk(*m.connections@[0].to, 0));
                assert(first_link_walk(*m.connections@[0].to, 0) == *m.connections@[0].to);
                assert(*next == first_link_walk(*first, k + 1));
                assert(path_view(node_path@) =~= leg_path(*first, k + 1));
                assert forall|j: nat| j < k + 1 implies (#[trigger] first_link_walk(
                    *first,
                    j,
                )).geo != goal && first_link_walk(*first, j).connections@.len() > 0 by {
                    if j < k {
                    }
                }
            }
        }
        let ghost k = (100 - max_loop) as nat;
        assert(leg_reaches(*first, goal, k));
        assert forall|n: nat| #[trigger] leg_reaches(*first, goal, n) implies path_view(node_path@)
            == leg_path(*first, n) by {
            lemma_leg_unique(*first, goal, n, k);
        }
        Some(node_path)
    }

    /// Follows the first link of each node from the element named `a` until
    /// a node at the position of the element named `b` is reached, and
    /// returns every node passed (from `a` on), each with the index 0 of the
    /// link taken to it.
    pub fn path_shortest_leg(network: &'a Network<Node<'a>>, a: &str, b: &str) -> (r: Vec<
        (usize, &'a Node<'a>),
    >)
        requires
            network.leg_exists(a@, b@),
        ensures
            forall|n: nat|
                #[trigger] leg_reaches(
                    network.element_with_hash(str_hash(a@)).unwrap(),
                    network.element_with_hash(str_hash(b@)).unwrap().geo,
                    n,
                ) ==> path_view(r@) == leg_path(network.element_with_hash(str_hash(a@)).unwrap(), n),
    {
        let goal = network.get_element(b).unwrap();
        let first = network.get_element(a).unwrap();
        match Network::walk_leg(first, goal.get_coordinate()) {
            Some(v) => v,
            None => {
                proof {
                    assert(false);
                }
                Vec::new()
            },
        }
    }

    /// `path_shortest_leg` where it has a result: `None` when no element is
    /// named `a` or `b`, or when following first links from `a` does not reach
    /// `b`'s position within `max_leg_steps` steps through nodes with links.
    pub fn try_path_shortest_leg(network: &'a Network<Node<'a>>, a: &str, b: &str) -> (r: Option<
        Vec<(usize, &'a Node<'a>)>,
    >)
        ensures
            r is Some <==> network.leg_exists(a@, b@),
            r matches Some(v) ==> forall|n: nat|
                #[trigger] leg_reaches(
                    network.element_with_hash(str_hash(a@)).unwrap(),
                    network.element_with_hash(str_hash(b@)).unwrap().geo,
                    n,
                ) ==> path_view(v@) == leg_path(network.element_with_hash(str_hash(a@)).unwrap(), n),
    {
        let goal = network.get_element(b)?;
        let first = network.get_element(a)?;
        let walked = Network::walk_leg(first, goal.get_coordinate());
        assert(network.element_with_hash(str_hash(a@)).unwrap() == *first);
        assert(network.element_with_hash(str_hash(b@)).unwrap().geo == goal.geo);
        if walked.is_some() {
            assert(network.leg_exists(a@, b@));
            Some(Network::path_shortest_leg(network, a, b))
        } else {
            assert(!network.leg_exists(a@, b@));
            None
        }
    }

    /// Calculates the path from the element named `a` to the element named
    /// `b` with `algorithm`; an element `a` without links gives an empty path.
    pub fn path<F>(&'a self, a: &str, b: &str, algorithm: &F) -> (r: Vec<(usize, &'a Node<'a>)>) where
        F: Fn(&'a Network<Node<'a>>, &str, &str) -> Vec<(usize, &'a Node<'a>)>,
        requires
            self.element_with_hash(str_hash(b@)) is Some,
            self.element_with_hash(str_hash(a@)) is Some,
            self.element_with_hash(str_hash(a@)).unwrap().connections@.len() > 0
                ==> algorithm.requires((self, a, b)),
        ensures
            self.element_with_hash(str_hash(a@)).unwrap().connections@.len() == 0 ==> r@.len() == 0,
            self.element_with_hash(str_hash(a@)).unwrap().connections@.len() > 0
                ==> algorithm.ensures((self, a, b), r),
    {
        let _goal = self.get_element(b).unwrap();
        let start = self.get_element(a).unwrap();
        if start.get_links().len() == 0 {
            return Vec::new();
        }
        algorithm(self, a, b)
    }

    /// `path` where it has a result: `None` when no element is named `a` or
    /// `b`. The algorithm is called only where the element named `a` has
    /// links, so only there must its precondition hold.
    pub fn try_path<F>(&'a self, a: &str, b: &str, algorithm: &F) -> (r: Option<
        Vec<(usize, &'a Node<'a>)>,
    >) where F: Fn(&'a Network<Node<'a>>, &str, &str) -> Vec<(usize, &'a Node<'a>)>,
        requires
            self.starts_with_links(a@) && self.element_with_hash(str_hash(b@)) is Some
                ==> algorithm.requires((self, a, b)),
        ensures
            r is Some <==> (self.element_with_hash(str_hash(a@)) is Some
                && self.element_with_hash(str_hash(b@)) is Some),
            r matches Some(v) ==> (self.element_with_hash(str_hash(a@)).unwrap().connections@.len()
                == 0 ==> v@.len() == 0),
            r matches Some(v) ==> (self.element_with_hash(str_hash(a@)).unwrap().connections@.len()
                > 0 ==> algorithm.ensures((self, a, b), v)),
    {
        if self.get_element(b).is_none() || self.get_element(a).is_none() {
            return None;
        }
        Some(self.path(a, b, algorithm))
    }

    /// `path` with `path_shortest_leg` as its algorithm, where it has a
    /// result: `None` when no element is named `a` or `b`, or when the element
    /// named `a` has links and following first links from it does not reach
    /// `b`'s position within `max_leg_steps` steps.
    pub fn try_path_by_first_links(&'a self, a: &str, b: &str) -> (r: Option<
        Vec<(usize, &'a Node<'a>)>,
    >)
        ensures
            r is Some <==> (self.element_with_hash(str_hash(a@)) is Some
                && self.element_with_hash(str_hash(b@)) is Some && (self.starts_with_links(a@)
                ==> self.leg_exists(a@, b@))),
            r matches Some(v) ==> (!self.starts_with_links(a@) ==> v@.len() == 0),
            r matches Some(v) ==> (self.starts_with_links(a@) ==> forall|n: nat|
                #[trigger] leg_reaches(
                    self.element_with_hash(str_hash(a@)).unwrap(),
                    self.element_with_hash(str_hash(b@)).unwrap().geo,
                    n,
                ) ==> path_view(v@) == leg_path(self.element_with_hash(str_hash(a@)).unwrap(), n)),
    {
        let start = self.get_element(a)?;
        if start.get_links().len() > 0 && Network::try_path_shortest_leg(self, a, b).is_none() {
            return None;
        }
        self.try_path(a, b, &Network::path_shortest_leg)
    }

    /// Retrieves the first element named `id`: the first with the hash of
    /// that name.
    pub fn get_element(&self, id: &str) -> (r: Option<&Node<'a>>)
        ensures
            r matches Some(n) ==> self.element_with_hash(str_hash(id@)) == Some(*n),
            r matches Some(n) ==> n.hash == str_hash(id@),
            r is None ==> self.element_with_hash(str_hash(id@)) is None,
            r is None ==> forall|i: int|
                0 <= i < self.elements@.len() ==> #[trigger] self.elements@[i].hash != str_hash(id@),
    {
        proof {
            lemma_first_with_hash(self.elements@, str_hash(id@));
        }
        let tmp: Node = Node::new(id, Coordinate::new(0, 0));
        let goal_index = self.contains_index(&tmp)?;
        Some(&self.elements[goal_index])
    }
}

} // verus!
