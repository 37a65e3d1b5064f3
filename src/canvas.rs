//! The pixel buffer that rendering paints into, kept in an `image::RgbImage`.
use vstd::prelude::*;

verus! {

/// An RGB colour as red, green and blue samples.
pub type Color = (u8, u8, u8);

pub open spec fn black() -> Color {
    (0u8, 0u8, 0u8)
}

pub open spec fn white() -> Color {
    (255u8, 255u8, 255u8)
}

/// A grid of RGB pixels with its origin at the top left.
#[verifier::external_body]
pub struct Canvas {
    img: image::RgbImage,
}

/// The width of a canvas in pixels.
pub uninterp spec fn canvas_width(c: Canvas) -> u32;

/// The height of a canvas in pixels.
pub uninterp spec fn canvas_height(c: Canvas) -> u32;

/// The colour of each pixel, keyed by `(x, y)`.
pub uninterp spec fn canvas_pixels(c: Canvas) -> Map<(u32, u32), Color>;

/// The keys of a `w` by `h` grid.
pub open spec fn in_grid(w: u32, h: u32, k: (u32, u32)) -> bool {
    k.0 < w && k.1 < h
}

/// A `w` by `h` grid whose every pixel has colour `p`.
pub open spec fn filled_map(w: u32, h: u32, p: Color) -> Map<(u32, u32), Color> {
    Map::new(|k: (u32, u32)| in_grid(w, h, k), |k: (u32, u32)| p)
}

/// The canvas holds exactly one pixel for each key of its grid.
pub open spec fn canvas_wf(c: Canvas) -> bool {
    forall|k: (u32, u32)|
        #![trigger canvas_pixels(c).dom().contains(k)]
        canvas_pixels(c).dom().contains(k) <==> in_grid(canvas_width(c), canvas_height(c), k)
}

/// `m` with every pixel whose position lies in `pts` turned black.
pub open spec fn paint(m: Map<(u32, u32), Color>, pts: Set<(int, int)>) -> Map<(u32, u32), Color> {
    Map::new(
        |k: (u32, u32)| m.dom().contains(k),
        |k: (u32, u32)| if pts.contains((k.0 as int, k.1 as int)) { black() } else { m[k] },
    )
}

/// Painting one set of points and then another is painting their union.
pub proof fn lemma_paint_union(m: Map<(u32, u32), Color>, a: Set<(int, int)>, b: Set<(int, int)>)
    ensures
        paint(paint(m, a), b) == paint(m, a.union(b)),
{
    assert(paint(paint(m, a), b) =~= paint(m, a.union(b)));
}

/// Painting no point changes nothing.
pub proof fn lemma_paint_empty(m: Map<(u32, u32), Color>)
    ensures
        paint(m, Set::empty()) == m,
{
    assert(paint(m, Set::empty()) =~= m);
}

/// Adding a point that names no pixel of `m` changes no painting.
pub proof fn lemma_paint_outside(m: Map<(u32, u32), Color>, pts: Set<(int, int)>, p: (int, int))
    requires
        forall|k: (u32, u32)| m.dom().contains(k) ==> (k.0 as int, k.1 as int) != p,
    ensures
        paint(m, pts.insert(p)) == paint(m, pts),
{
    assert(paint(m, pts.insert(p)) =~= paint(m, pts));
}

/// Turning the pixel at a point black after painting is painting the point too.
pub proof fn lemma_paint_insert(m: Map<(u32, u32), Color>, pts: Set<(int, int)>, x: u32, y: u32)
    requires
        m.dom().contains((x, y)),
    ensures
        paint(m, pts).insert((x, y), black()) == paint(m, pts.insert((x as int, y as int))),
{
    assert(paint(m, pts).insert((x, y), black()) =~= paint(m, pts.insert((x as int, y as int))));
}

impl Canvas {
    /// Relies on `image::ImageBuffer::from_pixel`: a `width` by `height` image whose
    /// every pixel is `p`; it panics when the buffer length `3 * width * height`
    /// overflows `usize`, and allocating more than `isize::MAX` bytes panics too.
    #[verifier::external_body]
    pub(crate) fn from_pixel(width: u32, height: u32, p: Color) -> (r: Canvas)
        requires
            3 * (width as int) * (height as int) <= isize::MAX,
        ensures
            canvas_width(r) == width,
            canvas_height(r) == height,
            canvas_pixels(r) == filled_map(width, height, p),
    {
        Canvas { img: image::RgbImage::from_pixel(width, height, image::Rgb([p.0, p.1, p.2])) }
    }

    /// Relies on `image::ImageBuffer::width`.
    #[verifier::external_body]
    fn image_width(&self) -> (r: u32)
        ensures
            r == canvas_width(*self),
    {
        self.img.width()
    }

    /// Relies on `image::ImageBuffer::height`.
    #[verifier::external_body]
    fn image_height(&self) -> (r: u32)
        ensures
            r == canvas_height(*self),
    {
        self.img.height()
    }

    /// Relies on `image::ImageBuffer::put_pixel`: it overwrites the pixel at
    /// `(x, y)` alone, and panics outside the image.
    #[verifier::external_body]
    fn image_put_pixel(&mut self, x: u32, y: u32, p: Color)
        requires
            x < canvas_width(*old(self)),
            y < canvas_height(*old(self)),
        ensures
            canvas_width(*final(self)) == canvas_width(*old(self)),
            canvas_height(*final(self)) == canvas_height(*old(self)),
            canvas_pixels(*final(self)) == canvas_pixels(*old(self)).insert((x, y), p),
    {
        self.img.put_pixel(x, y, image::Rgb([p.0, p.1, p.2]))
    }

    /// Relies on `image::ImageBuffer::get_pixel`: the pixel at `(x, y)`; it panics
    /// outside the image.
    #[verifier::external_body]
    fn image_get_pixel(&self, x: u32, y: u32) -> (r: Color)
        requires
            x < canvas_width(*self),
            y < canvas_height(*self),
        ensures
            r == canvas_pixels(*self)[(x, y)],
    {
        let p = self.img.get_pixel(x, y);
        (p.0[0], p.0[1], p.0[2])
    }

    /// A `width` by `height` canvas with every pixel white.
    pub fn new_white(width: u32, height: u32) -> (r: Canvas)
        requires
            3 * (width as int) * (height as int) <= isize::MAX,
        ensures
            canvas_wf(r),
            canvas_width(r) == width,
            canvas_height(r) == height,
            canvas_pixels(r) == filled_map(width, height, white()),
    {
        Canvas::from_pixel(width, height, (255u8, 255u8, 255u8))
    }

    pub fn width(&self) -> (r: u32)
        ensures
            r == canvas_width(*self),
    {
        self.image_width()
    }

    pub fn height(&self) -> (r: u32)
        ensures
            r == canvas_height(*self),
    {
        self.image_height()
    }

    /// The colour at `(x, y)`, or `None` outside the canvas.
    pub fn pixel(&self, x: u32, y: u32) -> (r: Option<Color>)
        requires
            canvas_wf(*self),
        ensures
            r == (if in_grid(canvas_width(*self), canvas_height(*self), (x, y)) {
                Some(canvas_pixels(*self)[(x, y)])
            } else {
                None::<Color>
            }),
    {
        if x < self.image_width() && y < self.image_height() {
            Some(self.image_get_pixel(x, y))
        } else {
            None
        }
    }

    /// Turns the pixel at `(x, y)` black when it lies on the canvas; a point off
    /// the canvas is dropped.
    pub fn plot(&mut self, x: i64, y: i64)
        requires
            canvas_wf(*old(self)),
        ensures
            canvas_wf(*final(self)),
            canvas_width(*final(self)) == canvas_width(*old(self)),
            canvas_height(*final(self)) == canvas_height(*old(self)),
            canvas_pixels(*final(self)) == paint(canvas_pixels(*old(self)), set![(x as int, y as int)]),
    {
        let w = self.image_width();
        let h = self.image_height();
        if 0 <= x && x < w as i64 && 0 <= y && y < h as i64 {
            proof {
                lemma_paint_empty(canvas_pixels(*self));
                lemma_paint_insert(canvas_pixels(*self), Set::empty(), x as u32, y as u32);
                assert(Set::<(int, int)>::empty().insert((x as int, y as int)) == set![(x as int, y as int)]);
            }
            self.image_put_pixel(x as u32, y as u32, (0u8, 0u8, 0u8));
        } else {
            proof {
                lemma_paint_empty(canvas_pixels(*self));
                lemma_paint_outside(canvas_pixels(*self), Set::empty(), (x as int, y as int));
                assert(Set::<(int, int)>::empty().insert((x as int, y as int)) == set![(x as int, y as int)]);
            }
        }
    }
}

} // verus!
