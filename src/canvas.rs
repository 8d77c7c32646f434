//! The RGBA canvas that glyphs are composited onto. It holds an
//! `image::ImageBuffer`, read and written through a few trusted calls.
use image::{ImageBuffer, Rgba};
use vstd::prelude::*;

verus! {

/// One pixel: red, green, blue and alpha.
#[derive(Clone, Copy, Debug, PartialEq, Eq, Structural)]
pub struct Rgba8 {
    pub r: u8,
    pub g: u8,
    pub b: u8,
    pub a: u8,
}

/// An 8-bit RGBA image. Verus cannot declare `ImageBuffer` itself (its
/// `Pixel` bound is refused), so the buffer sits in a hidden field.
#[verifier::external_body]
pub struct Canvas {
    img: ImageBuffer<Rgba<u8>, Vec<u8>>,
}

/// The rows of a canvas, top to bottom, each a row of pixels left to right.
pub uninterp spec fn canvas_rows(c: Canvas) -> Seq<Seq<Rgba8>>;

/// Every row of the canvas holds `w` pixels.
pub open spec fn rows_of_width(c: Canvas, w: nat) -> bool {
    forall|y: int| 0 <= y < canvas_rows(c).len() ==> #[trigger] canvas_rows(c)[y].len() == w
}

/// Whether `(x, y)` names a pixel of the canvas.
pub open spec fn in_canvas(c: Canvas, x: int, y: int) -> bool {
    0 <= y < canvas_rows(c).len() && 0 <= x < canvas_rows(c)[y].len()
}

/// The pixel at column `x` of row `y`.
pub open spec fn pixel_at(c: Canvas, x: int, y: int) -> Rgba8 {
    canvas_rows(c)[y][x]
}

/// The channels of the pixels, row after row, four bytes to a pixel.
pub open spec fn raw_bytes(rows: Seq<Seq<Rgba8>>) -> Seq<u8>
    decreases rows.len(),
{
    if rows.len() == 0 {
        Seq::empty()
    } else {
        raw_bytes(rows.drop_last()) + row_bytes(rows.last())
    }
}

/// The channels of one row of pixels.
pub open spec fn row_bytes(row: Seq<Rgba8>) -> Seq<u8>
    decreases row.len(),
{
    if row.len() == 0 {
        Seq::empty()
    } else {
        let p = row.last();
        row_bytes(row.drop_last()) + seq![p.r, p.g, p.b, p.a]
    }
}

impl Canvas {
    /// Relies on `ImageBuffer::from_pixel`: a `width` by `height` image with
    /// every pixel set to `fill`. It panics when `4 * width`, or that
    /// times `height`, overflows `usize`.
    #[verifier::external_body]
    fn from_pixel(width: u32, height: u32, fill: Rgba8) -> (r: Canvas)
        requires
            4 * (width as int) <= usize::MAX,
            4 * (width as int) * (height as int) <= usize::MAX,
        ensures
            canvas_rows(r).len() == height,
            rows_of_width(r, width as nat),
            forall|x: int, y: int|
                0 <= x < width && 0 <= y < height ==> #[trigger] pixel_at(r, x, y) == fill,
    {
        Canvas { img: ImageBuffer::from_pixel(width, height, Rgba([fill.r, fill.g, fill.b, fill.a])) }
    }

    /// Relies on `ImageBuffer::width`: the number of pixels in a row.
    #[verifier::external_body]
    pub(crate) fn image_width(&self) -> (r: u32)
        ensures
            rows_of_width(*self, r as nat),
    {
        self.img.width()
    }

    /// Relies on `ImageBuffer::height`: the number of rows.
    #[verifier::external_body]
    pub(crate) fn image_height(&self) -> (r: u32)
        ensures
            r == canvas_rows(*self).len(),
    {
        self.img.height()
    }

    /// Relies on `ImageBuffer::get_pixel`, which panics outside the image.
    #[verifier::external_body]
    pub(crate) fn image_get(&self, x: u32, y: u32) -> (r: Rgba8)
        requires
            in_canvas(*self, x as int, y as int),
        ensures
            r == pixel_at(*self, x as int, y as int),
    {
        let p = self.img.get_pixel(x, y);
        Rgba8 { r: p.0[0], g: p.0[1], b: p.0[2], a: p.0[3] }
    }

    /// Relies on `ImageBuffer::put_pixel`, which panics outside the image and
    /// otherwise replaces exactly the one pixel.
    #[verifier::external_body]
    pub(crate) fn image_put(&mut self, x: u32, y: u32, p: Rgba8)
        requires
            in_canvas(*old(self), x as int, y as int),
        ensures
            canvas_rows(*final(self)) == canvas_rows(*old(self)).update(
                y as int,
                canvas_rows(*old(self))[y as int].update(x as int, p),
            ),
    {
        self.img.put_pixel(x, y, Rgba([p.r, p.g, p.b, p.a]))
    }

    /// Relies on `ImageBuffer::as_raw`: the channels of every pixel, row
    /// after row.
    #[verifier::external_body]
    fn image_raw(&self) -> (r: Vec<u8>)
        ensures
            r@ == raw_bytes(canvas_rows(*self)),
    {
        self.img.as_raw().clone()
    }

    /// A `width` by `height` canvas filled with `fill`, or `None` when the
    /// channels of a row or of the whole image would not fit in `usize`.
    pub fn new(width: u32, height: u32, fill: Rgba8) -> (r: Option<Canvas>)
        ensures
            r.is_some() <==> 4 * (width as int) <= usize::MAX && 4 * (width as int) * (height as int) <= usize::MAX,
            r matches Some(c) ==> {
                &&& canvas_rows(c).len() == height
                &&& rows_of_width(c, width as nat)
                &&& forall|x: int, y: int| 0 <= x < width && 0 <= y < height ==> #[trigger] pixel_at(c, x, y) == fill
            },
    {
        let w: u128 = width as u128;
        let h: u128 = height as u128;
        assert(4 * w * h <= 4 * 0xffff_ffff * 0xffff_ffff) by (nonlinear_arith)
            requires
                w <= 0xffff_ffff,
                h <= 0xffff_ffff,
        ;
        let row_bytes: u128 = 4 * w;
        let bytes: u128 = 4 * w * h;
        if row_bytes <= usize::MAX as u128 && bytes <= usize::MAX as u128 {
            Some(Canvas::from_pixel(width, height, fill))
        } else {
            None
        }
    }

    /// The number of pixels in a row.
    pub fn width(&self) -> (r: u32)
        ensures
            rows_of_width(*self, r as nat),
    {
        self.image_width()
    }

    /// The number of rows.
    pub fn height(&self) -> (r: u32)
        ensures
            r == canvas_rows(*self).len(),
    {
        self.image_height()
    }

    /// The pixel at `(x, y)`, or `None` outside the canvas.
    pub fn get_pixel(&self, x: u32, y: u32) -> (r: Option<Rgba8>)
        ensures
            r.is_some() <==> in_canvas(*self, x as int, y as int),
            r matches Some(p) ==> p == pixel_at(*self, x as int, y as int),
    {
        let w = self.image_width();
        let h = self.image_height();
        if y < h && x < w {
            Some(self.image_get(x, y))
        } else {
            None
        }
    }

    /// The channels of every pixel, row after row, four bytes to a pixel:
    /// the layout that image encoders take.
    pub fn to_raw(&self) -> (r: Vec<u8>)
        ensures
            r@ == raw_bytes(canvas_rows(*self)),
    {
        self.image_raw()
    }
}

} // verus!
