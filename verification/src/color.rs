//! Pixels, the distance between two of them, and alpha compositing.

use vstd::prelude::*;
use crate::arith::{isqrt, isqrt_spec, lemma_isqrt_monotonic, lemma_isqrt_unique};

verus! {

/// The distance value that stands for 1.0: the squared length of the diagonal
/// of the colour cube, `3 * 255 * 255`.
pub const DISTANCE_ONE: u64 = 195075;

/// An RGBA pixel. Each channel is a byte; 255 stands for 1.0.
#[derive(Clone, Copy, Debug, PartialEq, Eq, Structural)]
pub struct Pixel {
    pub r: u8,
    pub g: u8,
    pub b: u8,
    pub a: u8,
}

/// The absolute difference of two channel values.
pub open spec fn channel_gap(a: u8, b: u8) -> nat {
    if a >= b {
        (a - b) as nat
    } else {
        (b - a) as nat
    }
}

/// The squared Euclidean distance of the colour parts of two pixels, in
/// squared channel units. Alpha takes no part.
pub open spec fn squared_gap(a: Pixel, b: Pixel) -> nat {
    channel_gap(a.r, b.r) * channel_gap(a.r, b.r) + channel_gap(a.g, b.g) * channel_gap(a.g, b.g)
        + channel_gap(a.b, b.b) * channel_gap(a.b, b.b)
}

/// The Euclidean distance of the colour parts of two pixels, divided by the
/// length of the cube's diagonal and rounded down to a multiple of
/// `1 / DISTANCE_ONE`.
///
/// With `s = squared_gap(a, b)` the exact distance is
/// `sqrt(s) / (255 * sqrt(3)) = sqrt(s / DISTANCE_ONE)`, and
/// `DISTANCE_ONE * sqrt(s / DISTANCE_ONE) = sqrt(s * DISTANCE_ONE)`.
pub open spec fn pixel_distance_spec(a: Pixel, b: Pixel) -> nat {
    isqrt_spec(squared_gap(a, b) * (DISTANCE_ONE as nat))
}

impl Pixel {
    /// Whether two pixels agree in red, green and blue.
    pub open spec fn same_rgb(self, other: Pixel) -> bool {
        self.r == other.r && self.g == other.g && self.b == other.b
    }

    /// The pixel with the given red, green, blue and alpha.
    pub fn new(r: u8, g: u8, b: u8, a: u8) -> (p: Pixel)
        ensures
            p == (Pixel { r, g, b, a }),
    {
        Pixel { r, g, b, a }
    }
}

/// A channel gap is at most 255, so a squared gap is at most `DISTANCE_ONE`.
pub proof fn lemma_squared_gap_bound(a: Pixel, b: Pixel)
    ensures
        squared_gap(a, b) <= DISTANCE_ONE,
{
    let dr = channel_gap(a.r, b.r);
    let dg = channel_gap(a.g, b.g);
    let db = channel_gap(a.b, b.b);
    assert(dr * dr <= 65025) by (nonlinear_arith)
        requires
            dr <= 255,
    ;
    assert(dg * dg <= 65025) by (nonlinear_arith)
        requires
            dg <= 255,
    ;
    assert(db * db <= 65025) by (nonlinear_arith)
        requires
            db <= 255,
    ;
}

/// The squared gap vanishes exactly for pixels of the same colour.
pub proof fn lemma_squared_gap_zero(a: Pixel, b: Pixel)
    ensures
        squared_gap(a, b) == 0 <==> a.same_rgb(b),
{
    let dr = channel_gap(a.r, b.r);
    let dg = channel_gap(a.g, b.g);
    let db = channel_gap(a.b, b.b);
    assert(dr * dr == 0 <==> dr == 0) by (nonlinear_arith);
    assert(dg * dg == 0 <==> dg == 0) by (nonlinear_arith);
    assert(db * db == 0 <==> db == 0) by (nonlinear_arith);
}

/// The distance does not depend on the order of its arguments.
pub proof fn lemma_pixel_distance_symmetric(a: Pixel, b: Pixel)
    ensures
        pixel_distance_spec(a, b) == pixel_distance_spec(b, a),
{
    assert(squared_gap(a, b) == squared_gap(b, a));
}

/// The distance is zero exactly for pixels of the same colour, whatever
/// their alpha.
pub proof fn lemma_pixel_distance_zero(a: Pixel, b: Pixel)
    ensures
        pixel_distance_spec(a, b) == 0 <==> a.same_rgb(b),
{
    let s = squared_gap(a, b);
    lemma_squared_gap_zero(a, b);
    if s == 0 {
        assert(s * (DISTANCE_ONE as nat) == 0);
        assert(0 * 0 <= 0 < (0 + 1) * (0 + 1)) by (nonlinear_arith);
        lemma_isqrt_unique(0, 0);
    } else {
        assert(1 <= s * (DISTANCE_ONE as nat)) by (nonlinear_arith)
            requires
                s >= 1,
        ;
        assert(1 * 1 <= 1 < (1 + 1) * (1 + 1)) by (nonlinear_arith);
        lemma_isqrt_unique(1, 1);
        lemma_isqrt_monotonic(1, s * (DISTANCE_ONE as nat));
    }
}

/// The distance lies between 0 and `DISTANCE_ONE`.
pub proof fn lemma_pixel_distance_bounded(a: Pixel, b: Pixel)
    ensures
        pixel_distance_spec(a, b) <= DISTANCE_ONE,
{
    let s = squared_gap(a, b);
    let one = DISTANCE_ONE as nat;
    lemma_squared_gap_bound(a, b);
    assert(s * one <= one * one) by (nonlinear_arith)
        requires
            s <= one,
    ;
    assert(one * one < (one + 1) * (one + 1)) by (nonlinear_arith);
    lemma_isqrt_unique(one * one, one);
    lemma_isqrt_monotonic(s * one, one * one);
}

fn gap(a: u8, b: u8) -> (d: u64)
    ensures
        d == channel_gap(a, b),
        d <= 255,
{
    if a >= b {
        (a - b) as u64
    } else {
        (b - a) as u64
    }
}

/// The normalised colour distance of two pixels, in units of
/// `1 / DISTANCE_ONE`.
pub fn pixel_distance(a: Pixel, b: Pixel) -> (d: u64)
    ensures
        d == pixel_distance_spec(a, b),
        d <= DISTANCE_ONE,
        d == 0 <==> a.same_rgb(b),
{
    let dr: u64 = gap(a.r, b.r);
    let dg: u64 = gap(a.g, b.g);
    let db: u64 = gap(a.b, b.b);
    proof {
        lemma_squared_gap_bound(a, b);
        lemma_pixel_distance_bounded(a, b);
        lemma_pixel_distance_zero(a, b);
        assert(dr * dr <= 65025) by (nonlinear_arith)
            requires
                dr <= 255,
        ;
        assert(dg * dg <= 65025) by (nonlinear_arith)
            requires
                dg <= 255,
        ;
        assert(db * db <= 65025) by (nonlinear_arith)
            requires
                db <= 255,
        ;
    }
    let s: u64 = dr * dr + dg * dg + db * db;
    assert(s * DISTANCE_ONE <= 195075 * 195075) by (nonlinear_arith)
        requires
            s <= 195075,
            DISTANCE_ONE == 195075,
    ;
    isqrt(s * DISTANCE_ONE)
}

/// One colour channel of `applied` laid over `base` with opacity `alpha`:
/// `min(base * (1 - alpha) + applied * alpha, 1)`, rounded down to a byte.
pub open spec fn blend_channel(base: u8, applied: u8, alpha: u8) -> u8 {
    let mixed = (base * (255 - alpha) + applied * alpha) / 255;
    if mixed < 255 {
        mixed as u8
    } else {
        255u8
    }
}

/// The alpha of two stacked layers: `min(base + applied, 1)`.
pub open spec fn stack_alpha(base: u8, applied: u8) -> u8 {
    if base + applied < 255 {
        (base + applied) as u8
    } else {
        255u8
    }
}

/// Source-over compositing of `applied` on top of `base`.
pub open spec fn overlay_spec(base: Pixel, applied: Pixel) -> Pixel {
    Pixel {
        r: blend_channel(base.r, applied.r, applied.a),
        g: blend_channel(base.g, applied.g, applied.a),
        b: blend_channel(base.b, applied.b, applied.a),
        a: stack_alpha(base.a, applied.a),
    }
}

fn blend(base: u8, applied: u8, alpha: u8) -> (c: u8)
    ensures
        c == blend_channel(base, applied, alpha),
{
    let keep: u32 = 255 - alpha as u32;
    assert(base * keep <= 255 * 255) by (nonlinear_arith)
        requires
            base <= 255,
            keep <= 255,
    ;
    assert(applied * alpha <= 255 * 255) by (nonlinear_arith)
        requires
            applied <= 255,
            alpha <= 255,
    ;
    let mixed: u32 = (base as u32 * keep + applied as u32 * alpha as u32) / 255;
    if mixed < 255 {
        mixed as u8
    } else {
        255
    }
}

/// Lays `b` over `a`: each colour channel is
/// `min(a * (1 - b.alpha) + b * b.alpha, 1)` and the alpha is
/// `min(a.alpha + b.alpha, 1)`.
pub fn overlay_pixels(a: Pixel, b: Pixel) -> (p: Pixel)
    ensures
        p == overlay_spec(a, b),
{
    let alpha: u8 = if 255 - a.a > b.a {
        a.a + b.a
    } else {
        255
    };
    Pixel { r: blend(a.r, b.r, b.a), g: blend(a.g, b.g, b.a), b: blend(a.b, b.b, b.a), a: alpha }
}

/// A fully transparent layer leaves colour and alpha of the base as they are.
pub proof fn lemma_overlay_transparent(base: Pixel, applied: Pixel)
    requires
        applied.a == 0,
    ensures
        overlay_spec(base, applied) == base,
{
}

/// A fully opaque layer replaces the colour of the base, and the result is
/// fully opaque.
pub proof fn lemma_overlay_opaque(base: Pixel, applied: Pixel)
    requires
        applied.a == 255,
    ensures
        overlay_spec(base, applied).same_rgb(applied),
        overlay_spec(base, applied).a == stack_alpha(base.a, 255),
        overlay_spec(base, applied).a == 255,
{
}

} // verus!
