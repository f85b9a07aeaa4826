//! Drawing nodes, their links and groups of nodes onto a canvas.
use vstd::prelude::*;
use crate::{Color, Coordinate};
use crate::canvas::{canvas_height, canvas_pixels, canvas_width, fits, lemma_paint_concat, paint,
    put_pixel, Canvas, PixelWrite};
use crate::group::{largest_size, node_size, Group};
use crate::node::{Link, Location, Node};
use crate::shape::Shape;
use crate::tools::{line, plot};

verus! {

/// Whether `v` is a value of `i16`.
pub open spec fn in_i16(v: int) -> bool {
    i16::MIN <= v <= i16::MAX
}

/// The areas a shape covers, by size: `None` for a size it cannot compute.
pub open spec fn areas_of<S: Shape>(shape: S) -> spec_fn(u32) -> Option<Seq<Coordinate>> {
    |s: u32|
        if shape.area_defined(s) {
            Some(shape.covered(s))
        } else {
            None
        }
}

/// Something that can be drawn onto a canvas with a shape.
pub trait Draw {
    /// The pixels `draw` writes, in order, or `None` when drawing would
    /// overflow its `i16` arithmetic or ask a shape for an area it cannot
    /// compute.
    spec fn drawing(
        &self,
        x_offset: i16,
        y_offset: i16,
        size: u32,
        areas: spec_fn(u32) -> Option<Seq<Coordinate>>,
    ) -> Option<Seq<PixelWrite>>;

    /// Whether `get_size` can be computed without overflow.
    spec fn size_defined(&self) -> bool;

    /// The size `get_size` returns.
    spec fn size_value(&self) -> u32;

    /// Draws onto `image`, moved by the offsets, with `shape` at `size` where
    /// no size of its own applies.
    fn draw<S: Shape>(
        &self,
        image: Canvas,
        x_offset: i16,
        y_offset: i16,
        size: u32,
        shape: &S,
    ) -> (r: Canvas)
        requires
            self.drawing(x_offset, y_offset, size, areas_of(*shape)) is Some,
            fits(
                canvas_width(image),
                canvas_height(image),
                self.drawing(x_offset, y_offset, size, areas_of(*shape)).unwrap(),
            ),
        ensures
            canvas_width(r) == canvas_width(image),
            canvas_height(r) == canvas_height(image),
            canvas_pixels(r) == paint(
                canvas_pixels(image),
                self.drawing(x_offset, y_offset, size, areas_of(*shape)).unwrap(),
            ),
    ;

    fn get_size(&self) -> (s: u32)
        requires
            self.size_defined(),
        ensures
            s == self.size_value(),
    ;

    fn get_links(&self) -> &Vec<Link<Node>>;
}

/// The pixels of the line that a link to `to` draws from `from`: both ends
/// moved by the offsets plus half the size (narrowed to `i16`), in the link's
/// colour; `None` when that arithmetic overflows `i16`.
pub open spec fn link_drawing(
    to: Coordinate,
    color: Color,
    x_offset: i16,
    y_offset: i16,
    size: u32,
    from: Coordinate,
) -> Option<Seq<PixelWrite>> {
    let half = ((size / 2) as i16) as int;
    let xo = x_offset + half;
    let yo = y_offset + half;
    if !(in_i16(xo) && in_i16(yo) && in_i16(from.x + xo) && in_i16(from.y + yo) && in_i16(to.x + xo)
        && in_i16(to.y + yo)) {
        None
    } else {
        let a = Coordinate { x: (from.x + xo) as i16, y: (from.y + yo) as i16 };
        let b = Coordinate { x: (to.x + xo) as i16, y: (to.y + yo) as i16 };
        Some(line(a, b).map_values(|c: Coordinate| PixelWrite { x: c.x as u32, y: c.y as u32, color }))
    }
}

/// The pixels the links of `links` draw from `from`, one link after the other.
pub open spec fn links_drawing<'a>(
    links: Seq<Link<'a, Node<'a>>>,
    x_offset: i16,
    y_offset: i16,
    size: u32,
    from: Coordinate,
) -> Option<Seq<PixelWrite>>
    decreases links.len(),
{
    if links.len() == 0 {
        Some(Seq::empty())
    } else {
        let l = links.last();
        match (
            links_drawing(links.drop_last(), x_offset, y_offset, size, from),
            link_drawing(l.to.geo, l.color, x_offset, y_offset, size, from),
        ) {
            (Some(a), Some(b)) => Some(a + b),
            _ => None,
        }
    }
}

/// The pixels a shape with offsets `offsets` covers at `(x, y)`, in a colour;
/// `None` when some position overflows `i16`.
pub open spec fn area_drawing(offsets: Seq<Coordinate>, x: int, y: int, color: Color) -> Option<
    Seq<PixelWrite>,
> {
    if forall|i: int|
        0 <= i < offsets.len() ==> in_i16(x + (#[trigger] offsets[i]).x) && in_i16(y + offsets[i].y) {
        Some(
            offsets.map_values(
                |o: Coordinate| PixelWrite { x: (x + o.x) as u32, y: (y + o.y) as u32, color },
            ),
        )
    } else {
        None
    }
}

/// The pixels `n.draw` writes: first its links, then its shape at its own
/// radius (or at `size` without one), placed at its position plus the offsets.
pub open spec fn node_drawing<'a>(
    n: Node<'a>,
    x_offset: i16,
    y_offset: i16,
    size: u32,
    areas: spec_fn(u32) -> Option<Seq<Coordinate>>,
) -> Option<Seq<PixelWrite>> {
    let x = n.geo.x + x_offset;
    let y = n.geo.y + y_offset;
    let sz = match n.radius {
        Some(r) => r,
        None => size,
    };
    if !(in_i16(x) && in_i16(y) && areas(sz) is Some) {
        None
    } else {
        match (
            links_drawing(n.connections@, x_offset, y_offset, sz, n.geo),
            area_drawing(areas(sz).unwrap(), x, y, n.color),
        ) {
            (Some(a), Some(b)) => Some(a + b),
            _ => None,
        }
    }
}

/// The pixels the first `k` nodes of `nodes` write, one node after the other.
pub open spec fn nodes_drawing<'a>(
    nodes: Seq<Node<'a>>,
    k: int,
    x_offset: i16,
    y_offset: i16,
    size: u32,
    areas: spec_fn(u32) -> Option<Seq<Coordinate>>,
) -> Option<Seq<PixelWrite>>
    decreases k,
{
    if k <= 0 {
        Some(Seq::empty())
    } else {
        match (
            nodes_drawing(nodes, k - 1, x_offset, y_offset, size, areas),
            node_drawing(nodes[k - 1], x_offset, y_offset, size, areas),
        ) {
            (Some(a), Some(b)) => Some(a + b),
            _ => None,
        }
    }
}

/// A group without nodes draws nothing: the image is left as it was.
pub proof fn lemma_empty_group_draws_nothing<'a, 'b>(
    g: Group<'a, 'b>,
    x_offset: i16,
    y_offset: i16,
    size: u32,
    areas: spec_fn(u32) -> Option<Seq<Coordinate>>,
    m: Map<(u32, u32), Seq<u8>>,
)
    requires
        g.nodes@.len() == 0,
    ensures
        g.drawing(x_offset, y_offset, size, areas) == Some(Seq::<PixelWrite>::empty()),
        paint(m, g.drawing(x_offset, y_offset, size, areas).unwrap()) == m,
{
}

/// A node draws its links before its shape, and its shape is placed at its
/// position plus the offsets: the last pixels written are its shape's, in
/// its colour.
pub proof fn lemma_node_draws_shape_last<'a>(
    n: Node<'a>,
    x_offset: i16,
    y_offset: i16,
    size: u32,
    areas: spec_fn(u32) -> Option<Seq<Coordinate>>,
    k: int,
)
    requires
        n.drawing(x_offset, y_offset, size, areas) is Some,
        0 <= k < areas(match n.radius {
            Some(r) => r,
            None => size,
        }).unwrap().len(),
    ensures
        ({
            let w = n.drawing(x_offset, y_offset, size, areas).unwrap();
            let offs = areas(match n.radius {
                Some(r) => r,
                None => size,
            }).unwrap();
            let p = w[w.len() - offs.len() + k];
            &&& offs.len() <= w.len()
            &&& p.x == (n.geo.x + x_offset + offs[k].x) as u32
            &&& p.y == (n.geo.y + y_offset + offs[k].y) as u32
            &&& p.color == n.color
        }),
{
}

proof fn lemma_largest_size_bounds<'a>(nodes: Seq<Node<'a>>, k: int)
    requires
        0 <= k <= nodes.len(),
    ensures
        forall|i: int| 0 <= i < k ==> node_size(#[trigger] nodes[i]) <= largest_size(nodes, k),
        k == 0 ==> largest_size(nodes, k) == 0,
        k > 0 ==> exists|i: int| 0 <= i < k && largest_size(nodes, k) == node_size(#[trigger] nodes[i]),
    decreases k,
{
    if k > 0 {
        lemma_largest_size_bounds(nodes, k - 1);
        if node_size(nodes[k - 1]) <= largest_size(nodes, k - 1) && k > 1 {
            let j = choose|i: int| 0 <= i < k - 1 && largest_size(nodes, k - 1) == node_size(#[trigger] nodes[i]);
            assert(largest_size(nodes, k) == node_size(nodes[j]));
        } else {
            assert(largest_size(nodes, k) == node_size(nodes[k - 1]));
        }
    }
}

/// A group's size is that of its largest node plus the group's own radius:
/// at least the size of every node plus that radius, equal to the size of
/// one of them plus that radius, and the radius alone (or 0) without nodes.
pub proof fn lemma_group_size_is_largest<'a, 'b>(g: Group<'a, 'b>)
    requires
        g.size_defined(),
    ensures
        ({
            let extra: int = match g.settings.radius {
                Some(e) => e as int,
                None => 0,
            };
            &&& forall|i: int|
                0 <= i < g.nodes@.len() ==> node_size(#[trigger] g.nodes@[i]) + extra <= g.size_value()
            &&& g.nodes@.len() == 0 ==> g.size_value() == extra
            &&& g.nodes@.len() > 0 ==> exists|i: int|
                0 <= i < g.nodes@.len() && g.size_value() == node_size(#[trigger] g.nodes@[i]) + extra
        }),
{
    lemma_largest_size_bounds(g.nodes@, g.nodes@.len() as int);
}

proof fn lemma_nodes_drawing_prefix<'a>(
    a: Seq<Node<'a>>,
    b: Seq<Node<'a>>,
    k: int,
    x_offset: i16,
    y_offset: i16,
    size: u32,
    areas: spec_fn(u32) -> Option<Seq<Coordinate>>,
)
    requires
        0 <= k <= a.len(),
        k <= b.len(),
        forall|i: int| 0 <= i < k ==> a[i] == b[i],
    ensures
        nodes_drawing(a, k, x_offset, y_offset, size, areas) == nodes_drawing(
            b,
            k,
            x_offset,
            y_offset,
            size,
            areas,
        ),
    decreases k,
{
    if k > 0 {
        lemma_nodes_drawing_prefix(a, b, k - 1, x_offset, y_offset, size, areas);
        assert(a[k - 1] == b[k - 1]);
    }
}

/// A group draws all of its nodes, one after the other: adding a node `n`
/// at the end of a group's nodes makes the group draw what it drew before
/// and then what `n` draws (and fail to draw where either fails). With
/// `lemma_empty_group_draws_nothing`, this fixes a group's drawing as that
/// of each of its nodes in order.
pub proof fn lemma_group_draws_added_node_last<'a, 'b>(
    g: Group<'a, 'b>,
    added: Group<'a, 'b>,
    n: Node<'a>,
    x_offset: i16,
    y_offset: i16,
    size: u32,
    areas: spec_fn(u32) -> Option<Seq<Coordinate>>,
)
    requires
        added.nodes@ == g.nodes@.push(n),
    ensures
        added.drawing(x_offset, y_offset, size, areas) == match (
            g.drawing(x_offset, y_offset, size, areas),
            n.drawing(x_offset, y_offset, size, areas),
        ) {
            (Some(a), Some(b)) => Some(a + b),
            _ => None,
        },
{
    let k = g.nodes@.len() as int;
    lemma_nodes_drawing_prefix(g.nodes@, added.nodes@, k, x_offset, y_offset, size, areas);
    assert(added.nodes@[k] == n);
}

/// A group of one node draws exactly what that node draws.
pub proof fn lemma_group_of_one_node<'a, 'b>(
    g: Group<'a, 'b>,
    x_offset: i16,
    y_offset: i16,
    size: u32,
    areas: spec_fn(u32) -> Option<Seq<Coordinate>>,
)
    requires
        g.nodes@.len() == 1,
    ensures
        g.drawing(x_offset, y_offset, size, areas) == g.nodes@[0].drawing(x_offset, y_offset, size, areas),
{
    let w = nodes_drawing(g.nodes@, 0, x_offset, y_offset, size, areas);
    assert(w == Some(Seq::<PixelWrite>::empty()));
    if let Some(b) = node_drawing(g.nodes@[0], x_offset, y_offset, size, areas) {
        assert(Seq::<PixelWrite>::empty() + b =~= b);
    }
}

proof fn lemma_fits_split(w: u32, h: u32, a: Seq<PixelWrite>, b: Seq<PixelWrite>)
    requires
        fits(w, h, a + b),
    ensures
        fits(w, h, a),
        fits(w, h, b),
{
    assert forall|i: int| 0 <= i < a.len() implies (#[trigger] a[i]).x < w && a[i].y < h by {
        assert((a + b)[i] == a[i]);
        assert((a + b)[i].x < w && (a + b)[i].y < h);
    }
    assert forall|i: int| 0 <= i < b.len() implies (#[trigger] b[i]).x < w && b[i].y < h by {
        assert((a + b)[a.len() + i] == b[i]);
        assert((a + b)[a.len() + i].x < w && (a + b)[a.len() + i].y < h);
    }
}

proof fn lemma_links_prefix<'a>(
    links: Seq<Link<'a, Node<'a>>>,
    k: int,
    x_offset: i16,
    y_offset: i16,
    size: u32,
    from: Coordinate,
)
    requires
        0 <= k < links.len(),
        links_drawing(links, x_offset, y_offset, size, from) is Some,
    ensures
        links_drawing(links.subrange(0, k), x_offset, y_offset, size, from) is Some,
        link_drawing(links[k].to.geo, links[k].color, x_offset, y_offset, size, from) is Some,
        links_drawing(links.subrange(0, k + 1), x_offset, y_offset, size, from) == Some(
            links_drawing(links.subrange(0, k), x_offset, y_offset, size, from).unwrap()
                + link_drawing(links[k].to.geo, links[k].color, x_offset, y_offset, size, from).unwrap(),
        ),
    decreases links.len(),
{
    if k + 1 == links.len() {
        assert(links.drop_last() =~= links.subrange(0, k));
        assert(links.subrange(0, k + 1) =~= links);
    } else {
        lemma_links_prefix(links.drop_last(), k, x_offset, y_offset, size, from);
        assert(links.drop_last().subrange(0, k) =~= links.subrange(0, k));
        assert(links.drop_last().subrange(0, k + 1) =~= links.subrange(0, k + 1));
    }
}

proof fn lemma_nodes_prefix<'a>(
    nodes: Seq<Node<'a>>,
    k: int,
    n: int,
    x_offset: i16,
    y_offset: i16,
    size: u32,
    areas: spec_fn(u32) -> Option<Seq<Coordinate>>,
)
    requires
        0 <= k < n,
        nodes_drawing(nodes, n, x_offset, y_offset, size, areas) is Some,
    ensures
        nodes_drawing(nodes, k, x_offset, y_offset, size, areas) is Some,
        node_drawing(nodes[k], x_offset, y_offset, size, areas) is Some,
    decreases n,
{
    if k + 1 < n {
        lemma_nodes_prefix(nodes, k, n - 1, x_offset, y_offset, size, areas);
    }
}

proof fn lemma_fits_prefix(w: u32, h: u32, s: Seq<PixelWrite>, k: int)
    requires
        fits(w, h, s),
        0 <= k <= s.len(),
    ensures
        fits(w, h, s.subrange(0, k)),
{
    assert forall|i: int| 0 <= i < k implies (#[trigger] s.subrange(0, k)[i]).x < w && s.subrange(
        0,
        k,
    )[i].y < h by {
        assert(s.subrange(0, k)[i] == s[i]);
    }
}

proof fn lemma_links_prefix_of<'a>(
    links: Seq<Link<'a, Node<'a>>>,
    k: int,
    x_offset: i16,
    y_offset: i16,
    size: u32,
    from: Coordinate,
)
    requires
        0 <= k <= links.len(),
        links_drawing(links, x_offset, y_offset, size, from) is Some,
    ensures
        links_drawing(links.subrange(0, k), x_offset, y_offset, size, from) is Some,
        links_drawing(links.subrange(0, k), x_offset, y_offset, size, from).unwrap().len()
            <= links_drawing(links, x_offset, y_offset, size, from).unwrap().len(),
        links_drawing(links.subrange(0, k), x_offset, y_offset, size, from).unwrap()
            == links_drawing(links, x_offset, y_offset, size, from).unwrap().subrange(
            0,
            links_drawing(links.subrange(0, k), x_offset, y_offset, size, from).unwrap().len() as int,
        ),
    decreases links.len(),
{
    let full = links_drawing(links, x_offset, y_offset, size, from).unwrap();
    if k == links.len() {
        assert(links.subrange(0, k) =~= links);
        assert(full.subrange(0, full.len() as int) =~= full);
    } else {
        let d = links.drop_last();
        lemma_links_prefix_of(d, k, x_offset, y_offset, size, from);
        assert(d.subrange(0, k) =~= links.subrange(0, k));
        let dd = links_drawing(d, x_offset, y_offset, size, from).unwrap();
        let p = links_drawing(links.subrange(0, k), x_offset, y_offset, size, from).unwrap();
        assert(full.subrange(0, p.len() as int) =~= dd.subrange(0, p.len() as int));
    }
}

proof fn lemma_nodes_prefix_of<'a>(
    nodes: Seq<Node<'a>>,
    k: int,
    n: int,
    x_offset: i16,
    y_offset: i16,
    size: u32,
    areas: spec_fn(u32) -> Option<Seq<Coordinate>>,
)
    requires
        0 <= k <= n,
        nodes_drawing(nodes, n, x_offset, y_offset, size, areas) is Some,
    ensures
        nodes_drawing(nodes, k, x_offset, y_offset, size, areas) is Some,
        nodes_drawing(nodes, k, x_offset, y_offset, size, areas).unwrap().len() <= nodes_drawing(
            nodes,
            n,
            x_offset,
            y_offset,
            size,
            areas,
        ).unwrap().len(),
        nodes_drawing(nodes, k, x_offset, y_offset, size, areas).unwrap() == nodes_drawing(
            nodes,
            n,
            x_offset,
            y_offset,
            size,
            areas,
        ).unwrap().subrange(
            0,
            nodes_drawing(nodes, k, x_offset, y_offset, size, areas).unwrap().len() as int,
        ),
    decreases n,
{
    let full = nodes_drawing(nodes, n, x_offset, y_offset, size, areas).unwrap();
    if k == n {
        assert(full.subrange(0, full.len() as int) =~= full);
    } else {
        lemma_nodes_prefix_of(nodes, k, n - 1, x_offset, y_offset, size, areas);
        let dd = nodes_drawing(nodes, n - 1, x_offset, y_offset, size, areas).unwrap();
        let p = nodes_drawing(nodes, k, x_offset, y_offset, size, areas).unwrap();
        assert(full.subrange(0, p.len() as int) =~= dd.subrange(0, p.len() as int));
    }
}

impl<'a, L: Location> Link<'a, L> {
    /// Draws the connection from `from` to the linked object as a straight
    /// line (Bresenham's algorithm), both ends moved by the offsets plus half
    /// the size.
    fn draw(&self, image: Canvas, x_offset: i16, y_offset: i16, size: u32, from: Coordinate) -> (r:
        Canvas)
        requires
            link_drawing(self.to.location(), self.color, x_offset, y_offset, size, from) is Some,
            fits(
                canvas_width(image),
                canvas_height(image),
                link_drawing(self.to.location(), self.color, x_offset, y_offset, size, from).unwrap(),
            ),
        ensures
            canvas_width(r) == canvas_width(image),
            canvas_height(r) == canvas_height(image),
            canvas_pixels(r) == paint(
                canvas_pixels(image),
                link_drawing(self.to.location(), self.color, x_offset, y_offset, size, from).unwrap(),
            ),
    {
        let ghost w = link_drawing(self.to.location(), self.color, x_offset, y_offset, size, from).unwrap();
        let mut image = image;
        let half: i16 = #[verifier::truncate] ((size / 2) as i16);
        let x_offset = x_offset + half;
        let y_offset = y_offset + half;
        let a = Coordinate::new(from.x + x_offset, from.y + y_offset);
        let to = self.to.get_coordinate();
        let b = Coordinate::new(to.x + x_offset, to.y + y_offset);
        let points = plot(a, b);
        let ghost start = canvas_pixels(image);
        let ghost width = canvas_width(image);
        let ghost height = canvas_height(image);
        let mut i: usize = 0;
        while i < points.len()
            invariant
                i <= points@.len(),
                canvas_width(image) == width,
                canvas_height(image) == height,
                points@ == line(a, b),
                w == points@.map_values(
                    |c: Coordinate| PixelWrite { x: c.x as u32, y: c.y as u32, color: self.color },
                ),
                fits(canvas_width(image), canvas_height(image), w),
                canvas_pixels(image) == paint(start, w.subrange(0, i as int)),
            decreases points@.len() - i,
        {
            let c = points[i];
            assert(w[i as int] == PixelWrite { x: c.x as u32, y: c.y as u32, color: self.color });
            assert(w.len() == points@.len());
            assert(fits(width, height, w));
            assert(w[i as int].x < width && w[i as int].y < height);
            put_pixel(&mut image, #[verifier::truncate] (c.x as u32), #[verifier::truncate] (c.y as u32), self.color);
            assert(w.subrange(0, i + 1).drop_last() =~= w.subrange(0, i as int));
            i = i + 1;
        }
        assert(w.subrange(0, i as int) =~= w);
        image
    }
}

impl<'a> Draw for Node<'a> {
    open spec fn drawing(
        &self,
        x_offset: i16,
        y_offset: i16,
        size: u32,
        areas: spec_fn(u32) -> Option<Seq<Coordinate>>,
    ) -> Option<Seq<PixelWrite>> {
        node_drawing(*self, x_offset, y_offset, size, areas)
    }

    open spec fn size_defined(&self) -> bool {
        true
    }

    open spec fn size_value(&self) -> u32 {
        node_size(*self)
    }

    /// Draws the node's links, then its shape at its position plus the
    /// offsets, with its own radius as the size when it has one.
    fn draw<S: Shape>(
        &self,
        image: Canvas,
        x_offset: i16,
        y_offset: i16,
        size: u32,
        shape: &S,
    ) -> (r: Canvas) {
        let ghost sz = match self.radius {
            Some(r) => r,
            None => size,
        };
        let ghost lw = links_drawing(self.connections@, x_offset, y_offset, sz, self.geo).unwrap();
        let ghost aw = area_drawing(
            areas_of(*shape)(sz).unwrap(),
            self.geo.x + x_offset,
            self.geo.y + y_offset,
            self.color,
        ).unwrap();
        let ghost width = canvas_width(image);
        let ghost height = canvas_height(image);
        let ghost start = canvas_pixels(image);
        proof {
            lemma_fits_split(width, height, lw, aw);
        }
        let x = self.geo.x + x_offset;
        let y = self.geo.y + y_offset;
        let size = match self.radius {
            Some(_) => self.radius.unwrap(),
            None => size,
        };
        let mut image = image;
        let mut i: usize = 0;
        while i < self.connections.len()
            invariant
                i <= self.connections@.len(),
                size == sz,
                lw == links_drawing(self.connections@, x_offset, y_offset, sz, self.geo).unwrap(),
                links_drawing(self.connections@, x_offset, y_offset, sz, self.geo) is Some,
                fits(width, height, lw),
                canvas_width(image) == width,
                canvas_height(image) == height,
                links_drawing(self.connections@.subrange(0, i as int), x_offset, y_offset, sz, self.geo)
                    is Some,
                canvas_pixels(image) == paint(
                    start,
                    links_drawing(
                        self.connections@.subrange(0, i as int),
                        x_offset,
                        y_offset,
                        sz,
                        self.geo,
                    ).unwrap(),
                ),
            decreases self.connections@.len() - i,
        {
            let ghost links = self.connections@;
            proof {
                lemma_links_prefix(links, i as int, x_offset, y_offset, sz, self.geo);
                lemma_links_prefix_of(links, i + 1, x_offset, y_offset, sz, self.geo);
                let pre = links_drawing(links.subrange(0, i as int), x_offset, y_offset, sz, self.geo).unwrap();
                let one = link_drawing(links[i as int].to.geo, links[i as int].color, x_offset, y_offset, sz, self.geo).unwrap();
                lemma_fits_prefix(width, height, lw, (pre + one).len() as int);
                lemma_fits_split(width, height, pre, one);
                lemma_paint_concat(start, pre, one);
            }
            image = self.connections[i].draw(image, x_offset, y_offset, size, self.geo);
            i = i + 1;
        }
        assert(self.connections@.subrange(0, i as int) =~= self.connections@);
        let ghost mid = canvas_pixels(image);
        let offsets = shape.area(size);
        let mut j: usize = 0;
        while j < offsets.len()
            invariant
                j <= offsets@.len(),
                offsets@ == shape.covered(sz),
                area_drawing(shape.covered(sz), x as int, y as int, self.color) is Some,
                aw == area_drawing(shape.covered(sz), x as int, y as int, self.color).unwrap(),
                fits(width, height, aw),
                canvas_width(image) == width,
                canvas_height(image) == height,
                canvas_pixels(image) == paint(mid, aw.subrange(0, j as int)),
            decreases offsets@.len() - j,
        {
            let o = offsets[j];
            assert(in_i16(x + offsets@[j as int].x) && in_i16(y + offsets@[j as int].y));
            let xo = #[verifier::truncate] ((x + o.x) as u32);
            let yo = #[verifier::truncate] ((y + o.y) as u32);
            assert(aw[j as int] == PixelWrite { x: xo, y: yo, color: self.color });
            assert(aw[j as int].x < width && aw[j as int].y < height);
            put_pixel(&mut image, xo, yo, self.color);
            assert(aw.subrange(0, j + 1).drop_last() =~= aw.subrange(0, j as int));
            j = j + 1;
        }
        assert(aw.subrange(0, j as int) =~= aw);
        proof {
            lemma_paint_concat(start, lw, aw);
        }
        image
    }

    /// The size the node is drawn at: its radius, or 4 without one.
    fn get_size(&self) -> (s: u32) {
        if self.radius.is_none() {
            4
        } else {
            self.radius.unwrap()
        }
    }

    fn get_links(&self) -> (l: &Vec<Link<Node>>)
        ensures
            l@ == self.connections@,
    {
        &self.connections
    }
}

impl<'a, 'b> Draw for Group<'a, 'b> {
    open spec fn drawing(
        &self,
        x_offset: i16,
        y_offset: i16,
        size: u32,
        areas: spec_fn(u32) -> Option<Seq<Coordinate>>,
    ) -> Option<Seq<PixelWrite>> {
        nodes_drawing(self.nodes@, self.nodes@.len() as int, x_offset, y_offset, size, areas)
    }

    open spec fn size_defined(&self) -> bool {
        match self.settings.radius {
            Some(e) => largest_size(self.nodes@, self.nodes@.len() as int) + e <= u32::MAX,
            None => true,
        }
    }

    open spec fn size_value(&self) -> u32 {
        (largest_size(self.nodes@, self.nodes@.len() as int) + match self.settings.radius {
            Some(e) => e as int,
            None => 0,
        }) as u32
    }

    /// Draws the nodes inside the group, one after the other; a group
    /// without nodes draws nothing.
    fn draw<S: Shape>(
        &self,
        image: Canvas,
        x_offset: i16,
        y_offset: i16,
        size: u32,
        shape: &S,
    ) -> (r: Canvas) {
        let ghost n = self.nodes@.len() as int;
        let ghost width = canvas_width(image);
        let ghost height = canvas_height(image);
        let ghost start = canvas_pixels(image);
        let ghost full = nodes_drawing(self.nodes@, n, x_offset, y_offset, size, areas_of(*shape)).unwrap();
        let mut image = image;
        let mut i: usize = 0;
        while i < self.nodes.len()
            invariant
                i <= n,
                n == self.nodes@.len(),
                nodes_drawing(self.nodes@, n, x_offset, y_offset, size, areas_of(*shape)) is Some,
                full == nodes_drawing(self.nodes@, n, x_offset, y_offset, size, areas_of(*shape)).unwrap(),
                fits(width, height, full),
                canvas_width(image) == width,
                canvas_height(image) == height,
                nodes_drawing(self.nodes@, i as int, x_offset, y_offset, size, areas_of(*shape)) is Some,
                canvas_pixels(image) == paint(
                    start,
                    nodes_drawing(self.nodes@, i as int, x_offset, y_offset, size, areas_of(*shape)).unwrap(),
                ),
            decreases n - i,
        {
            proof {
                lemma_nodes_prefix(self.nodes@, i as int, n, x_offset, y_offset, size, areas_of(*shape));
                lemma_nodes_prefix_of(self.nodes@, i + 1, n, x_offset, y_offset, size, areas_of(*shape));
                let pre = nodes_drawing(self.nodes@, i as int, x_offset, y_offset, size, areas_of(*shape)).unwrap();
                let one = node_drawing(self.nodes@[i as int], x_offset, y_offset, size, areas_of(*shape)).unwrap();
                lemma_fits_prefix(width, height, full, (pre + one).len() as int);
                lemma_fits_split(width, height, pre, one);
                lemma_paint_concat(start, pre, one);
            }
            image = self.nodes[i].draw(image, x_offset, y_offset, size, shape);
            i = i + 1;
        }
        image
    }

    /// Returns the size of the largest node in the group, plus the settings'
    /// radius if it has one.
    fn get_size(&self) -> (s: u32) {
        let mut max: u32 = 0;
        let mut i: usize = 0;
        while i < self.nodes.len()
            invariant
                i <= self.nodes@.len(),
                max == largest_size(self.nodes@, i as int),
            decreases self.nodes@.len() - i,
        {
            let tmp = self.nodes[i].get_size();
            if tmp > max {
                max = tmp;
            }
            i = i + 1;
        }
        match self.settings.radius {
            Some(e) => max + e,
            None => max,
        }
    }

    fn get_links(&self) -> (l: &Vec<Link<Node>>)
        ensures
            l@ == self.settings.connections@,
    {
        &self.settings.connections
    }
}

} // verus!
