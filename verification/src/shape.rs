//! Candidate patches and their random generation.

use vstd::prelude::*;
use crate::color::Pixel;
use crate::image::{ImageBuffer, Raster};
use crate::rect::{Rect, SUBPIXEL};

verus! {

/// A candidate extends over at most one part in `SIZE_PARTS` of the canvas on
/// each axis.
pub const SIZE_PARTS: u64 = 5;

/// A candidate mutation: an image and the rectangle of the canvas that it
/// would be composited over.
#[derive(Debug)]
pub struct Patch {
    pub pixels: ImageBuffer,
    pub rect: Rect,
}

/// The largest extent of a candidate along an axis of `dimension` pixels, in
/// coordinate units: a fifth of the axis.
pub open spec fn max_extent_spec(dimension: nat) -> nat {
    ((dimension * SUBPIXEL) / (SIZE_PARTS as int)) as nat
}

/// The largest origin of a candidate along an axis of `dimension` pixels, in
/// coordinate units: four fifths of the axis, so that origin and extent
/// together stay on the axis.
pub open spec fn max_origin_spec(dimension: nat) -> nat {
    ((dimension * SUBPIXEL * (SIZE_PARTS - 1)) / (SIZE_PARTS as int)) as nat
}

impl Patch {
    /// The image has the size of the rectangle's whole pixels.
    pub open spec fn wf(&self) -> bool {
        &&& self.pixels.wf()
        &&& self.pixels@.width == self.rect.spec_cols()
        &&& self.pixels@.height == self.rect.spec_rows()
    }

    /// Whether every pixel of the patch is `color`.
    pub open spec fn is_solid(&self, color: Pixel) -> bool {
        self.pixels@ == Raster::filled(self.rect.spec_cols(), self.rect.spec_rows(), color)
    }

    /// Pairs an image with its placement. The result is `None` unless the
    /// image has the size of the rectangle's whole pixels.
    pub fn new(pixels: ImageBuffer, rect: Rect) -> (res: Option<Patch>)
        requires
            pixels.wf(),
        ensures
            res is Some <==> pixels@.width == rect.spec_cols() && pixels@.height
                == rect.spec_rows(),
            res matches Some(patch) ==> patch.wf() && patch.pixels == pixels && patch.rect == rect,
    {
        if pixels.width() as u32 == rect.cols() && pixels.height() as u32 == rect.rows() {
            Some(Patch { pixels, rect })
        } else {
            None
        }
    }

    /// The patch of one colour that covers the whole pixels of `rect`.
    pub fn solid(rect: Rect, color: Pixel) -> (patch: Patch)
        ensures
            patch.wf(),
            patch.rect == rect,
            patch.is_solid(color),
    {
        let pixels = ImageBuffer::new(rect.cols() as u16, rect.rows() as u16, color);
        Patch { pixels, rect }
    }
}

/// Draws a number between two bounds by `macroquad::rand::gen_range` (the
/// function `gen_range` of the crate `quad_rand`, under the name that
/// macroquad gives it), which scales the next output of the crate's global
/// generator into the range. The contract claims no more than that the
/// result lies between the bounds, both included, where they are in order.
#[verifier::external_body]
fn random_between(low: u32, high: u32) -> (r: u32)
    ensures
        low <= high ==> low <= r <= high,
{
    macroquad::rand::gen_range(low, high)
}

/// The largest extent of a candidate along an axis of `dimension` pixels.
pub fn max_extent(dimension: u16) -> (e: u32)
    ensures
        e == max_extent_spec(dimension as nat),
{
    let unit: u64 = SUBPIXEL as u64;
    assert(unit == 65536);
    let scaled: u64 = dimension as u64 * unit;
    (scaled / SIZE_PARTS) as u32
}

/// The largest origin of a candidate along an axis of `dimension` pixels.
pub fn max_origin(dimension: u16) -> (o: u32)
    ensures
        o == max_origin_spec(dimension as nat),
{
    let unit: u64 = SUBPIXEL as u64;
    let kept: u64 = SIZE_PARTS - 1;
    assert(unit == 65536 && kept == 4);
    let scaled: u64 = dimension as u64 * unit;
    ((scaled * kept) / SIZE_PARTS) as u32
}

/// Whether `rect` is a placement that `create_shape` may choose on a canvas
/// of the given size.
pub open spec fn in_shape_range(rect: Rect, width: nat, height: nat) -> bool {
    &&& rect.x <= max_origin_spec(width)
    &&& rect.y <= max_origin_spec(height)
    &&& rect.w <= max_extent_spec(width)
    &&& rect.h <= max_extent_spec(height)
}

/// Whether `patch` is a candidate that `create_shape` may propose for a
/// canvas of the given size: a patch of one colour over a placement in the
/// range.
pub open spec fn is_candidate(patch: Patch, width: nat, height: nat) -> bool {
    &&& patch.wf()
    &&& in_shape_range(patch.rect, width, height)
    &&& exists|color: Pixel| patch.is_solid(color)
}

/// Every placement in the range lies inside the canvas.
pub proof fn lemma_shape_range_fits(rect: Rect, width: nat, height: nat)
    requires
        in_shape_range(rect, width, height),
    ensures
        rect.fits(width, height),
{
}

/// Proposes a random candidate for a canvas of the given size: a rectangle
/// whose extent on each axis is drawn from zero to a fifth of the canvas and
/// whose origin is drawn from zero to four fifths of it, filled with one
/// colour whose four channels are drawn independently.
///
/// Rectangles of less than one pixel in width or height are among the
/// outcomes; their patch holds no pixel.
pub fn create_shape(width: u16, height: u16) -> (patch: Patch)
    ensures
        is_candidate(patch, width as nat, height as nat),
        patch.rect.fits(width as nat, height as nat),
{
    let shape_rect = Rect {
        x: random_between(0, max_origin(width)),
        y: random_between(0, max_origin(height)),
        w: random_between(0, max_extent(width)),
        h: random_between(0, max_extent(height)),
    };
    let random_color = Pixel {
        r: random_between(0, 255) as u8,
        g: random_between(0, 255) as u8,
        b: random_between(0, 255) as u8,
        a: random_between(0, 255) as u8,
    };
    let patch = Patch::solid(shape_rect, random_color);
    proof {
        lemma_shape_range_fits(shape_rect, width as nat, height as nat);
        assert(patch.is_solid(random_color));
    }
    patch
}

} // verus!
