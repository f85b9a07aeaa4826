//! The image that maps are drawn on: an `image::ImageBuffer` of RGBA pixels,
//! seen through the size it was made with and the colour of each pixel.
use vstd::prelude::*;
use crate::Color;

verus! {

/// An RGBA image with one byte per channel (an `image::ImageBuffer`, kept
/// private so that only the functions below change it), known to the proofs
/// through `canvas_width`, `canvas_height` and `canvas_pixels`.
#[verifier::external_body]
#[derive(Debug)]
pub struct Canvas {
    img: image::ImageBuffer<image::Rgba<u8>, Vec<u8>>,
}

/// Name for the width an image was created with.
pub uninterp spec fn canvas_width(img: Canvas) -> u32;

/// Name for the height an image was created with.
pub uninterp spec fn canvas_height(img: Canvas) -> u32;

/// Name for the contents of an image: the four channels of the pixel at each
/// `(x, y)` with `x` below the width and `y` below the height.
pub uninterp spec fn canvas_pixels(img: Canvas) -> Map<(u32, u32), Seq<u8>>;

/// The contents of a new image: every pixel of the given size is zero.
pub open spec fn blank(width: u32, height: u32) -> Map<(u32, u32), Seq<u8>> {
    Map::new(|p: (u32, u32)| p.0 < width && p.1 < height, |p: (u32, u32)| seq![0u8, 0u8, 0u8, 0u8])
}

/// Whether an RGBA image of `width` by `height` can be created: its buffer
/// length, computed as `4 * width` and then times `height`, overflows
/// neither step in `usize`, and a vector of that many bytes can be
/// allocated (at most `isize::MAX` bytes).
pub open spec fn canvas_size_ok(width: u32, height: u32) -> bool {
    &&& 4 * (width as int) <= usize::MAX
    &&& 4 * (width as int) * (height as int) <= isize::MAX
}

/// `ImageBuffer::new` for RGBA bytes. Claimed, as its source shows: the image
/// has the given width and height and every pixel is zero. It computes the
/// buffer length as `4 * width`, then times `height`, each step checked,
/// and panics where either overflows `usize`; the vector of that length
/// panics beyond `isize::MAX` bytes. `requires` rules both out.
#[verifier::external_body]
pub(crate) fn new_canvas(width: u32, height: u32) -> (img: Canvas)
    requires
        canvas_size_ok(width, height),
    ensures
        canvas_width(img) == width,
        canvas_height(img) == height,
        canvas_pixels(img) == blank(width, height),
{
    Canvas { img: image::ImageBuffer::new(width, height) }
}

/// `ImageBuffer::put_pixel`. Claimed, as its source shows: the pixel at
/// `(x, y)` takes the four channels of `color`, every other pixel and the
/// size stay as they were; it panics outside the image, which `requires`
/// rules out.
#[verifier::external_body]
pub(crate) fn put_pixel(img: &mut Canvas, x: u32, y: u32, color: Color)
    requires
        x < canvas_width(*old(img)),
        y < canvas_height(*old(img)),
    ensures
        canvas_width(*final(img)) == canvas_width(*old(img)),
        canvas_height(*final(img)) == canvas_height(*old(img)),
        canvas_pixels(*final(img)) == canvas_pixels(*old(img)).insert((x, y), color.data@),
{
    img.img.put_pixel(x, y, image::Rgba(color.data))
}

/// `ImageBuffer::width`. Claimed, as its source shows: the width the image
/// was created with.
#[verifier::external_body]
fn image_width(img: &Canvas) -> (w: u32)
    ensures
        w == canvas_width(*img),
{
    img.img.width()
}

/// `ImageBuffer::height`. Claimed, as its source shows: the height the image
/// was created with.
#[verifier::external_body]
fn image_height(img: &Canvas) -> (h: u32)
    ensures
        h == canvas_height(*img),
{
    img.img.height()
}

/// `ImageBuffer::get_pixel`. Claimed, as its source shows: the four channels
/// of the pixel at `(x, y)`; it panics outside the image, which `requires`
/// rules out.
#[verifier::external_body]
fn image_pixel(img: &Canvas, x: u32, y: u32) -> (p: [u8; 4])
    requires
        x < canvas_width(*img),
        y < canvas_height(*img),
    ensures
        p@ == canvas_pixels(*img)[(x, y)],
{
    img.img.get_pixel(x, y).0
}

impl Canvas {
    /// The width and height of the image.
    pub fn dimensions(&self) -> (d: (u32, u32))
        ensures
            d == (canvas_width(*self), canvas_height(*self)),
    {
        (image_width(self), image_height(self))
    }

    /// The four channels of the pixel at `(x, y)`, or `None` outside the
    /// image.
    pub fn pixel(&self, x: u32, y: u32) -> (p: Option<[u8; 4]>)
        ensures
            p is Some <==> x < canvas_width(*self) && y < canvas_height(*self),
            p matches Some(c) ==> c@ == canvas_pixels(*self)[(x, y)],
    {
        if x < image_width(self) && y < image_height(self) {
            Some(image_pixel(self, x, y))
        } else {
            None
        }
    }
}

impl Clone for Canvas {
    /// `ImageBuffer`'s `Clone`. Claimed, as its source shows: the copy has the
    /// same size and pixels.
    #[verifier::external_body]
    fn clone(&self) -> (c: Self)
        ensures
            canvas_width(c) == canvas_width(*self),
            canvas_height(c) == canvas_height(*self),
            canvas_pixels(c) == canvas_pixels(*self),
    {
        Canvas { img: self.img.clone() }
    }
}

/// One pixel to be written: its position and colour.
#[derive(Debug, Copy, Clone, PartialEq, Eq)]
pub struct PixelWrite {
    pub x: u32,
    pub y: u32,
    pub color: Color,
}

/// The contents `m` after the writes `w`, in order (a later write to the
/// same position wins).
pub open spec fn paint(m: Map<(u32, u32), Seq<u8>>, w: Seq<PixelWrite>) -> Map<(u32, u32), Seq<u8>>
    decreases w.len(),
{
    if w.len() == 0 {
        m
    } else {
        paint(m, w.drop_last()).insert((w.last().x, w.last().y), w.last().color.data@)
    }
}

/// Whether every write of `w` lies inside a `width` by `height` image.
pub open spec fn fits(width: u32, height: u32, w: Seq<PixelWrite>) -> bool {
    forall|i: int| 0 <= i < w.len() ==> (#[trigger] w[i]).x < width && w[i].y < height
}

/// Painting two runs of writes one after the other is painting them joined.
pub proof fn lemma_paint_concat(m: Map<(u32, u32), Seq<u8>>, a: Seq<PixelWrite>, b: Seq<PixelWrite>)
    ensures
        paint(paint(m, a), b) == paint(m, a + b),
    decreases b.len(),
{
    if b.len() == 0 {
        assert(a + b =~= a);
    } else {
        lemma_paint_concat(m, a, b.drop_last());
        assert((a + b).drop_last() =~= a + b.drop_last());
    }
}

/// The channels the last write of `w` at `p` gives, or `None` when no
/// write of `w` is at `p`.
pub open spec fn last_write(w: Seq<PixelWrite>, p: (u32, u32)) -> Option<Seq<u8>>
    decreases w.len(),
{
    if w.len() == 0 {
        None
    } else if (w.last().x, w.last().y) == p {
        Some(w.last().color.data@)
    } else {
        last_write(w.drop_last(), p)
    }
}

/// Painting `w` onto `m` leaves every position that `w` does not write as
/// it was, and gives every position it writes the colour of its last write.
pub proof fn lemma_paint_at(m: Map<(u32, u32), Seq<u8>>, w: Seq<PixelWrite>, p: (u32, u32))
    ensures
        paint(m, w).dom().contains(p) == (last_write(w, p) is Some || m.dom().contains(p)),
        paint(m, w)[p] == match last_write(w, p) {
            Some(c) => c,
            None => m[p],
        },
    decreases w.len(),
{
    if w.len() > 0 {
        lemma_paint_at(m, w.drop_last(), p);
    }
}

/// Painting the same writes a second time changes nothing.
pub proof fn lemma_paint_twice(m: Map<(u32, u32), Seq<u8>>, w: Seq<PixelWrite>)
    ensures
        paint(paint(m, w), w) == paint(m, w),
{
    assert forall|p: (u32, u32)| #[trigger] paint(paint(m, w), w).dom().contains(p) == paint(
        m,
        w,
    ).dom().contains(p) by {
        lemma_paint_at(m, w, p);
        lemma_paint_at(paint(m, w), w, p);
    }
    assert forall|p: (u32, u32)| paint(paint(m, w), w).dom().contains(p) implies #[trigger] paint(
        paint(m, w),
        w,
    )[p] == paint(m, w)[p] by {
        lemma_paint_at(m, w, p);
        lemma_paint_at(paint(m, w), w, p);
    }
    assert(paint(paint(m, w), w) =~= paint(m, w));
}

} // verus!
