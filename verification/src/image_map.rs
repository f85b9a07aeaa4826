//! Maps: drawing a list of drawable, located elements onto one image that is
//! sized to hold them all.
use vstd::prelude::*;
use crate::Coordinate;
use crate::canvas::{blank, lemma_paint_twice, canvas_height, canvas_size_ok, canvas_pixels, canvas_width, fits, lemma_paint_concat,
    new_canvas, paint, Canvas, PixelWrite};
use crate::draw::{area_drawing, areas_of, in_i16, node_drawing, Draw};
use crate::node::Node;
use crate::shape::square_area;
use crate::node::Location;
use crate::shape::{Shape, Square};

verus! {

/// The image elements are drawn on, the offset added to every position so
/// that all of them land on it, and the size shapes are drawn at.
#[derive(Debug)]
pub struct ImageMap {
    pub image: Option<Canvas>,
    pub add: (i16, i16),
    pub size: u32,
}

impl Default for ImageMap {
    /// No image yet, no offset, size 0.
    fn default() -> (m: ImageMap)
        ensures
            m.image is None,
            m.add == (0i16, 0i16),
            m.size == 0,
    {
        ImageMap { image: None, add: (0, 0), size: 0 }
    }
}

impl Clone for ImageMap {
    fn clone(&self) -> (m: ImageMap)
        ensures
            m.add == self.add,
            m.size == self.size,
            m.image is Some <==> self.image is Some,
            m.image matches Some(i) ==> canvas_width(i) == canvas_width(self.image.unwrap())
                && canvas_height(i) == canvas_height(self.image.unwrap()) && canvas_pixels(i)
                == canvas_pixels(self.image.unwrap()),
    {
        let image = match &self.image {
            Some(i) => Some(i.clone()),
            None => None,
        };
        ImageMap { image, add: self.add, size: self.size }
    }
}

/// The lowest `x` and `y` among `(0, 0)` and the lower corners of the first
/// `k` extents of `list`.
pub open spec fn lowest<T: Location>(list: Seq<T>, k: int) -> (int, int)
    decreases k,
{
    if k <= 0 {
        (0, 0)
    } else {
        let (x, y) = lowest(list, k - 1);
        let c = list[k - 1].extent().0;
        (if c.x < x { c.x as int } else { x }, if c.y < y { c.y as int } else { y })
    }
}

/// The highest `x` and `y` among `(0, 0)` and the upper corners of the first
/// `k` extents of `list`.
pub open spec fn highest<T: Location>(list: Seq<T>, k: int) -> (int, int)
    decreases k,
{
    if k <= 0 {
        (0, 0)
    } else {
        let (x, y) = highest(list, k - 1);
        let c = list[k - 1].extent().1;
        (if c.x > x { c.x as int } else { x }, if c.y > y { c.y as int } else { y })
    }
}

/// The largest size among the first `k` elements of `list`, or 0.
pub open spec fn largest<T: Draw>(list: Seq<T>, k: int) -> int
    decreases k,
{
    if k <= 0 {
        0
    } else {
        let m = largest(list, k - 1);
        let s = list[k - 1].size_value();
        if s > m { s as int } else { m }
    }
}

proof fn lemma_bounds_ordered<T: Draw + Location>(list: Seq<T>, k: int)
    ensures
        lowest(list, k).0 <= 0,
        lowest(list, k).1 <= 0,
        highest(list, k).0 >= 0,
        highest(list, k).1 >= 0,
        largest(list, k) >= 0,
    decreases k,
{
    if k > 0 {
        lemma_bounds_ordered(list, k - 1);
    }
}

/// The bounds `min_max` returns: `((lowest x, highest x), (lowest y,
/// highest y))` over `(0, 0)` and all extents, each widened by the largest
/// element size.
pub open spec fn bounds<T: Draw + Location>(list: Seq<T>) -> ((int, int), (int, int)) {
    let pad = largest(list, list.len() as int);
    let (lx, ly) = lowest(list, list.len() as int);
    let (hx, hy) = highest(list, list.len() as int);
    ((lx - pad, hx + pad), (ly - pad, hy + pad))
}

/// Whether `min_max` can be computed for `list`: every size is defined and
/// the widened bounds stay above `i16::MIN` and within `i16::MAX`.
pub open spec fn bounds_fit<T: Draw + Location>(list: Seq<T>) -> bool {
    let b = bounds(list);
    &&& forall|i: int| 0 <= i < list.len() ==> (#[trigger] list[i]).size_defined()
    &&& i16::MIN < b.0.0
    &&& i16::MIN < b.1.0
    &&& b.0.1 <= i16::MAX
    &&& b.1.1 <= i16::MAX
}

/// Finds the bounds of a list of elements: the lowest and highest `x` and
/// `y` of their extents and of `(0, 0)`, widened on each side by the largest
/// element size, as `((min x, max x), (min y, max y))`.
pub fn min_max<T: Draw + Location>(list: &[T]) -> (r: ((i16, i16), (i16, i16)))
    requires
        bounds_fit(list@),
    ensures
        r.0.0 == bounds(list@).0.0,
        r.0.1 == bounds(list@).0.1,
        r.1.0 == bounds(list@).1.0,
        r.1.1 == bounds(list@).1.1,
{
    let mut size: u32 = 0;
    let mut min_x: i16 = 0;
    let mut min_y: i16 = 0;
    let mut max_x: i16 = 0;
    let mut max_y: i16 = 0;
    let mut i: usize = 0;
    while i < list.len()
        invariant
            i <= list@.len(),
            bounds_fit(list@),
            size == largest(list@, i as int),
            (min_x as int, min_y as int) == lowest(list@, i as int),
            (max_x as int, max_y as int) == highest(list@, i as int),
        decreases list@.len() - i,
    {
        assert(list@[i as int].size_defined());
        let s = list[i].get_size();
        if s > size {
            size = s;
        }
        let (min, max) = list[i].get_parameters();
        max_x = if max.x > max_x { max.x } else { max_x };
        min_x = if min.x < min_x { min.x } else { min_x };
        max_y = if max.y > max_y { max.y } else { max_y };
        min_y = if min.y < min_y { min.y } else { min_y };
        i = i + 1;
    }
    let pad = size as i32;
    (
        ((min_x as i32 - pad) as i16, (max_x as i32 + pad) as i16),
        ((min_y as i32 - pad) as i16, (max_y as i32 + pad) as i16),
    )
}

/// The offset that moves the lowest bounds to 0: `(-min x, -min y)`.
pub fn gen_stuff(min_max: ((i16, i16), (i16, i16))) -> (r: (i16, i16))
    requires
        min_max.0.0 > i16::MIN,
        min_max.1.0 > i16::MIN,
    ensures
        r.0 == -min_max.0.0,
        r.1 == -min_max.1.0,
{
    (-min_max.0.0, -min_max.1.0)
}

/// The width and height that hold every position from the lowest to the
/// highest bound: `max - min + 1` on each axis.
pub fn gen_map_dimensions(min_max: ((i16, i16), (i16, i16))) -> (r: (u32, u32))
    requires
        min_max.0.0 <= min_max.0.1,
        min_max.1.0 <= min_max.1.1,
    ensures
        r.0 == min_max.0.1 - min_max.0.0 + 1,
        r.1 == min_max.1.1 - min_max.1.0 + 1,
{
    (
        (min_max.0.1 as i32 - min_max.0.0 as i32 + 1) as u32,
        (min_max.1.1 as i32 - min_max.1.0 as i32 + 1) as u32,
    )
}

/// A new, blank image of the given size.
pub fn gen_canvas(width: u32, height: u32) -> (c: Canvas)
    requires
        canvas_size_ok(width, height),
    ensures
        canvas_width(c) == width,
        canvas_height(c) == height,
        canvas_pixels(c) == blank(width, height),
{
    new_canvas(width, height)
}

/// The pixels the first `k` elements of `list` write when drawn as squares
/// at `size`, moved by `add`, one element after the other.
pub open spec fn elements_drawing<T: Draw>(list: Seq<T>, k: int, add: (i16, i16), size: u32) -> Option<
    Seq<PixelWrite>,
>
    decreases k,
{
    if k <= 0 {
        Some(Seq::empty())
    } else {
        match (
            elements_drawing(list, k - 1, add, size),
            list[k - 1].drawing(add.0, add.1, size, areas_of(Square {})),
        ) {
            (Some(a), Some(b)) => Some(a + b),
            _ => None,
        }
    }
}

/// The offset, width, height and contents `map` draws onto: those of the
/// map's image if it has one; otherwise those of a new image that holds the
/// bounds of `list`.
pub open spec fn start_of<T: Draw + Location>(m: ImageMap, list: Seq<T>) -> ((i16, i16), u32, u32, Map<
    (u32, u32),
    Seq<u8>,
>) {
    match m.image {
        Some(img) => (m.add, canvas_width(img), canvas_height(img), canvas_pixels(img)),
        None => {
            let b = bounds(list);
            let w = (b.0.1 - b.0.0 + 1) as u32;
            let h = (b.1.1 - b.1.0 + 1) as u32;
            (((-b.0.0) as i16, (-b.1.0) as i16), w, h, blank(w, h))
        },
    }
}

/// Whether `m.map(list)` can draw every element: a new image is needed only
/// where the map has none, and must then have a size that can be allocated;
/// every element must be drawable, and every pixel written must land on the
/// image.
pub open spec fn can_map<T: Draw + Location>(m: ImageMap, list: Seq<T>) -> bool {
    let (add, w, h, _) = start_of(m, list);
    &&& m.image is None ==> bounds_fit(list) && canvas_size_ok(w, h)
    &&& elements_drawing(list, list.len() as int, add, m.size) is Some
    &&& fits(w, h, elements_drawing(list, list.len() as int, add, m.size).unwrap())
}

proof fn lemma_elements_prefix<T: Draw>(list: Seq<T>, k: int, n: int, add: (i16, i16), size: u32)
    requires
        0 <= k < n,
        elements_drawing(list, n, add, size) is Some,
    ensures
        elements_drawing(list, k, add, size) is Some,
        list[k].drawing(add.0, add.1, size, areas_of(Square {})) is Some,
        elements_drawing(list, k + 1, add, size).unwrap().len() <= elements_drawing(
            list,
            n,
            add,
            size,
        ).unwrap().len(),
        elements_drawing(list, k + 1, add, size).unwrap() == elements_drawing(
            list,
            n,
            add,
            size,
        ).unwrap().subrange(0, elements_drawing(list, k + 1, add, size).unwrap().len() as int),
    decreases n,
{
    let full = elements_drawing(list, n, add, size).unwrap();
    if k + 1 == n {
        assert(full.subrange(0, full.len() as int) =~= full);
    } else {
        lemma_elements_prefix(list, k, n - 1, add, size);
        let dd = elements_drawing(list, n - 1, add, size).unwrap();
        let p = elements_drawing(list, k + 1, add, size).unwrap();
        assert(full.subrange(0, p.len() as int) =~= dd.subrange(0, p.len() as int));
    }
}

proof fn lemma_fits_prefix_split(w: u32, h: u32, full: Seq<PixelWrite>, a: Seq<PixelWrite>, b: Seq<PixelWrite>)
    requires
        fits(w, h, full),
        (a + b).len() <= full.len(),
        a + b == full.subrange(0, (a + b).len() as int),
    ensures
        fits(w, h, b),
{
    assert forall|i: int| 0 <= i < b.len() implies (#[trigger] b[i]).x < w && b[i].y < h by {
        assert((a + b)[a.len() + i] == b[i]);
        assert(full[a.len() + i] == b[i]);
    }
}

proof fn lemma_bounds_hold<T: Location>(list: Seq<T>, k: int, i: int)
    requires
        0 <= i < k <= list.len(),
    ensures
        lowest(list, k).0 <= list[i].extent().0.x,
        lowest(list, k).1 <= list[i].extent().0.y,
        highest(list, k).0 >= list[i].extent().1.x,
        highest(list, k).1 >= list[i].extent().1.y,
    decreases k,
{
    if i < k - 1 {
        lemma_bounds_hold(list, k - 1, i);
    }
}

proof fn lemma_largest_unlinked<'a>(list: Seq<Node<'a>>, k: int)
    requires
        0 <= k <= list.len(),
        forall|i: int| 0 <= i < list.len() ==> (#[trigger] list[i]).radius is None,
    ensures
        largest(list, k) == (if k > 0 { 4int } else { 0int }),
    decreases k,
{
    if k > 0 {
        lemma_largest_unlinked(list, k - 1);
        assert(list[k - 1].radius is None);
    }
}

proof fn lemma_fits_concat(w: u32, h: u32, a: Seq<PixelWrite>, b: Seq<PixelWrite>)
    requires
        fits(w, h, a),
        fits(w, h, b),
    ensures
        fits(w, h, a + b),
{
    assert forall|i: int| 0 <= i < (a + b).len() implies (#[trigger] (a + b)[i]).x < w && (a
        + b)[i].y < h by {
        if i < a.len() {
            assert((a + b)[i] == a[i]);
        } else {
            assert((a + b)[i] == b[i - a.len()]);
        }
    }
}

/// A new map holds nodes without links or radius of their own: drawing them
/// as squares of size 4 writes only inside the image fitted to their
/// bounds, provided those bounds span at most `i16::MAX` on each axis (so
/// the offset positions fit `i16`) and the image can be allocated.
pub proof fn lemma_map_holds_unlinked_nodes<'a>(list: Seq<Node<'a>>)
    requires
        forall|i: int|
            0 <= i < list.len() ==> (#[trigger] list[i]).radius is None
                && list[i].connections@.len() == 0,
        bounds_fit(list),
        bounds(list).0.1 - bounds(list).0.0 <= i16::MAX,
        bounds(list).1.1 - bounds(list).1.0 <= i16::MAX,
        canvas_size_ok(
            start_of(ImageMap { image: None, add: (0, 0), size: 4 }, list).1,
            start_of(ImageMap { image: None, add: (0, 0), size: 4 }, list).2,
        ),
    ensures
        can_map(ImageMap { image: None, add: (0, 0), size: 4 }, list),
{
    let m = ImageMap { image: None, add: (0, 0), size: 4 };
    let n = list.len() as int;
    let (add, w, h, _) = start_of(m, list);
    lemma_bounds_ordered(list, n);
    lemma_largest_unlinked(list, n);
    lemma_unlinked_drawings(list, n, add, w, h);
}

proof fn lemma_unlinked_drawings<'a>(list: Seq<Node<'a>>, k: int, add: (i16, i16), w: u32, h: u32)
    requires
        0 <= k <= list.len(),
        forall|i: int|
            0 <= i < list.len() ==> (#[trigger] list[i]).radius is None
                && list[i].connections@.len() == 0,
        bounds_fit(list),
        bounds(list).0.1 - bounds(list).0.0 <= i16::MAX,
        bounds(list).1.1 - bounds(list).1.0 <= i16::MAX,
        list.len() > 0 ==> largest(list, list.len() as int) == 4,
        add == start_of(ImageMap { image: None, add: (0, 0), size: 4 }, list).0,
        w == start_of(ImageMap { image: None, add: (0, 0), size: 4 }, list).1,
        h == start_of(ImageMap { image: None, add: (0, 0), size: 4 }, list).2,
    ensures
        elements_drawing(list, k, add, 4) is Some,
        fits(w, h, elements_drawing(list, k, add, 4).unwrap()),
    decreases k,
{
    if k > 0 {
        lemma_unlinked_drawings(list, k - 1, add, w, h);
        let nd = list[k - 1];
        assert(nd.radius is None && nd.connections@.len() == 0);
        lemma_bounds_hold(list, list.len() as int, k - 1);
        let b = bounds(list);
        let x = nd.geo.x + add.0;
        let y = nd.geo.y + add.1;
        assert(add.0 == -b.0.0 && add.1 == -b.1.0);
        assert(4 <= x <= b.0.1 - b.0.0 - 4);
        assert(4 <= y <= b.1.1 - b.1.0 - 4);
        let offs = square_area(4);
        assert(areas_of(Square {})(4) == Some(offs));
        assert(forall|j: int| 0 <= j < offs.len() ==> 0 <= (#[trigger] offs[j]).x <= 3 && 0
            <= offs[j].y <= 3);
        assert(nd.connections@ =~= Seq::empty());
        let aw = area_drawing(offs, x, y, nd.color);
        assert(aw is Some);
        assert(fits(w, h, aw.unwrap())) by {
            assert forall|j: int| 0 <= j < aw.unwrap().len() implies (#[trigger] aw.unwrap()[j]).x
                < w && aw.unwrap()[j].y < h by {
                assert(0 <= offs[j].x <= 3 && 0 <= offs[j].y <= 3);
            }
        }
        let one = node_drawing(nd, add.0, add.1, 4, areas_of(Square {}));
        assert(one == Some(Seq::<PixelWrite>::empty() + aw.unwrap()));
        assert(Seq::<PixelWrite>::empty() + aw.unwrap() =~= aw.unwrap());
        lemma_fits_concat(w, h, elements_drawing(list, k - 1, add, 4).unwrap(), aw.unwrap());
    }
}

/// What `m.map(list)` returns: the same size, the offset of `start_of`, and
/// an image of the size of `start_of` whose pixels are the starting pixels
/// painted with the writes of every element, in order.
pub open spec fn maps_to<T: Draw + Location>(m: ImageMap, list: Seq<T>, r: ImageMap) -> bool {
    let (add, w, h, pixels) = start_of(m, list);
    &&& r.size == m.size
    &&& r.add == add
    &&& r.image matches Some(img) && canvas_width(img) == w && canvas_height(img) == h
        && canvas_pixels(img) == paint(
        pixels,
        elements_drawing(list, list.len() as int, add, m.size).unwrap(),
    )
}

/// Mapping the same elements again changes nothing: a map `r` that `map`
/// returned for `list` can map `list` again, and a second result `r2` has
/// the offset, size, image size and pixels of `r`.
pub proof fn lemma_map_twice<T: Draw + Location>(m: ImageMap, list: Seq<T>, r: ImageMap, r2: ImageMap)
    requires
        can_map(m, list),
        maps_to(m, list, r),
        maps_to(r, list, r2),
    ensures
        can_map(r, list),
        r2.add == r.add,
        r2.size == r.size,
        canvas_width(r2.image.unwrap()) == canvas_width(r.image.unwrap()),
        canvas_height(r2.image.unwrap()) == canvas_height(r.image.unwrap()),
        canvas_pixels(r2.image.unwrap()) == canvas_pixels(r.image.unwrap()),
{
    let (add, w, h, pixels) = start_of(m, list);
    let writes = elements_drawing(list, list.len() as int, add, m.size).unwrap();
    lemma_paint_twice(pixels, writes);
}

impl ImageMap {
    /// A map without an image yet, without offset, drawing at size 4.
    pub fn new() -> (m: ImageMap)
        ensures
            m.image is None,
            m.add == (0i16, 0i16),
            m.size == 4,
    {
        ImageMap { image: None, add: (0, 0), size: 4 }
    }

    /// Draws every element onto the map's image as squares, one after the
    /// other. Without an image yet, the map first gets one that holds the
    /// bounds of the elements (`min_max`), and the offset that moves the
    /// lowest bounds to 0.
    pub fn map<T: Draw + Location>(self, element: &[T]) -> (r: ImageMap)
        requires
            can_map(self, element@),
        ensures
            maps_to(self, element@, r),
    {
        let ghost start = start_of(self, element@);
        let mut this = self;
        if this.image.is_none() {
            let min_max = min_max(element);
            proof {
                lemma_bounds_ordered(element@, element@.len() as int);
            }
            this.add = gen_stuff(min_max);
            let res = gen_map_dimensions(min_max);
            this.image = Some(gen_canvas(res.0, res.1));
        }
        let sq = Square::new();
        let ghost n = element@.len() as int;
        let ghost full = elements_drawing(element@, n, start.0, this.size).unwrap();
        let mut i: usize = 0;
        while i < element.len()
            invariant
                i <= n,
                n == element@.len(),
                this.add == start.0,
                this.size == self.size,
                elements_drawing(element@, n, start.0, this.size) is Some,
                full == elements_drawing(element@, n, start.0, this.size).unwrap(),
                fits(start.1, start.2, full),
                this.image matches Some(img) && canvas_width(img) == start.1 && canvas_height(img)
                    == start.2 && canvas_pixels(img) == paint(
                    start.3,
                    elements_drawing(element@, i as int, start.0, this.size).unwrap(),
                ),
                elements_drawing(element@, i as int, start.0, this.size) is Some,
            decreases n - i,
        {
            proof {
                lemma_elements_prefix(element@, i as int, n, start.0, this.size);
                let pre = elements_drawing(element@, i as int, start.0, this.size).unwrap();
                let one = element@[i as int].drawing(start.0.0, start.0.1, this.size, areas_of(Square {})).unwrap();
                lemma_fits_prefix_split(start.1, start.2, full, pre, one);
                lemma_paint_concat(start.3, pre, one);
            }
            let img = this.image.take().unwrap();
            this.image = Some(element[i].draw(img, this.add.0, this.add.1, this.size, &sq));
            i = i + 1;
        }
        this
    }
}

} // verus!
