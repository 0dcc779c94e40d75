//! Axis-aligned rectangles with sub-pixel coordinates.

use vstd::prelude::*;

verus! {

/// The number of coordinate units in one pixel.
pub const SUBPIXEL: u32 = 65536;

/// The number of squared coordinate units in one square pixel.
pub const SUBPIXEL_AREA: u64 = 4294967296;

/// An axis-aligned rectangle. Origin and extent are fixed-point numbers with
/// 16 fractional bits: `SUBPIXEL` stands for one pixel.
#[derive(Clone, Copy, Debug, PartialEq, Eq, Structural)]
pub struct Rect {
    pub x: u32,
    pub y: u32,
    pub w: u32,
    pub h: u32,
}

impl Rect {
    /// The column of the origin, rounded down.
    pub open spec fn spec_left(self) -> nat {
        (self.x / SUBPIXEL) as nat
    }

    /// The row of the origin, rounded down.
    pub open spec fn spec_top(self) -> nat {
        (self.y / SUBPIXEL) as nat
    }

    /// The number of whole columns in the extent.
    pub open spec fn spec_cols(self) -> nat {
        (self.w / SUBPIXEL) as nat
    }

    /// The number of whole rows in the extent.
    pub open spec fn spec_rows(self) -> nat {
        (self.h / SUBPIXEL) as nat
    }

    /// The nominal area `w * h`, in squared coordinate units.
    pub open spec fn area(self) -> nat {
        self.w as nat * self.h as nat
    }

    /// Whether the rectangle lies inside an image of the given size:
    /// `x + w <= width` and `y + h <= height`.
    pub open spec fn fits(self, width: nat, height: nat) -> bool {
        &&& self.x + self.w <= width * SUBPIXEL
        &&& self.y + self.h <= height * SUBPIXEL
    }

    /// The rectangle with the given origin and extent, in coordinate units.
    pub fn new(x: u32, y: u32, w: u32, h: u32) -> (r: Rect)
        ensures
            r == (Rect { x, y, w, h }),
    {
        Rect { x, y, w, h }
    }

    /// The rectangle that covers `w` by `h` whole pixels from pixel `(x, y)`.
    pub fn from_pixels(x: u16, y: u16, w: u16, h: u16) -> (r: Rect)
        ensures
            r.x == x * SUBPIXEL,
            r.y == y * SUBPIXEL,
            r.w == w * SUBPIXEL,
            r.h == h * SUBPIXEL,
            r.spec_left() == x,
            r.spec_top() == y,
            r.spec_cols() == w,
            r.spec_rows() == h,
    {
        Rect {
            x: x as u32 * SUBPIXEL,
            y: y as u32 * SUBPIXEL,
            w: w as u32 * SUBPIXEL,
            h: h as u32 * SUBPIXEL,
        }
    }

    /// The column of the origin, rounded down.
    pub fn left(self) -> (c: u32)
        ensures
            c == self.spec_left(),
            c <= u16::MAX,
    {
        self.x / SUBPIXEL
    }

    /// The row of the origin, rounded down.
    pub fn top(self) -> (c: u32)
        ensures
            c == self.spec_top(),
            c <= u16::MAX,
    {
        self.y / SUBPIXEL
    }

    /// The number of whole columns in the extent.
    pub fn cols(self) -> (c: u32)
        ensures
            c == self.spec_cols(),
            c <= u16::MAX,
    {
        self.w / SUBPIXEL
    }

    /// The number of whole rows in the extent.
    pub fn rows(self) -> (c: u32)
        ensures
            c == self.spec_rows(),
            c <= u16::MAX,
    {
        self.h / SUBPIXEL
    }

    /// Tests whether the rectangle lies inside an image of the given size.
    pub fn fits_within(self, width: u16, height: u16) -> (b: bool)
        ensures
            b == self.fits(width as nat, height as nat),
    {
        let unit: u64 = SUBPIXEL as u64;
        assert(unit == 65536);
        self.x as u64 + self.w as u64 <= width as u64 * unit && self.y as u64 + self.h as u64
            <= height as u64 * unit
    }

    /// The whole pixels of a rectangle that fits an image lie inside it.
    pub proof fn lemma_fits_cells(self, width: nat, height: nat)
        requires
            self.fits(width, height),
        ensures
            self.spec_left() + self.spec_cols() <= width,
            self.spec_top() + self.spec_rows() <= height,
    {
    }

    /// The whole pixels of a rectangle cover no more than its nominal area.
    pub proof fn lemma_cells_within_area(self)
        ensures
            self.spec_cols() * self.spec_rows() * SUBPIXEL_AREA <= self.area(),
    {
        let c = self.spec_cols() as int;
        let r = self.spec_rows() as int;
        let w = self.w as int;
        let h = self.h as int;
        assert(c * 65536 <= w);
        assert(r * 65536 <= h);
        assert((c * 65536) * (r * 65536) <= w * h) by (nonlinear_arith)
            requires
                0 <= c * 65536 <= w,
                0 <= r * 65536 <= h,
        ;
        assert((c * 65536) * (r * 65536) == c * r * 4294967296) by (nonlinear_arith);
    }
}

} // verus!
