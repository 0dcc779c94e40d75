//! Compositing one image into a region of another.

use vstd::prelude::*;
use crate::color::{overlay_pixels, overlay_spec};
use crate::image::{ImageBuffer, Raster};
use crate::rect::Rect;

verus! {

/// The image `canvas` after `patch` was laid over the `w` by `h` pixels that
/// start at `(x0, y0)`: inside that block each pixel is the overlay of the
/// patch pixel on the canvas pixel, outside it the canvas is as it was.
pub open spec fn stamp(canvas: Raster, patch: Raster, x0: int, y0: int, w: nat, h: nat) -> Raster {
    Raster {
        width: canvas.width,
        height: canvas.height,
        rows: Seq::new(
            canvas.height,
            |y: int|
                Seq::new(
                    canvas.width,
                    |x: int|
                        if x0 <= x < x0 + w && y0 <= y < y0 + h {
                            overlay_spec(canvas.at(x, y), patch.at(x - x0, y - y0))
                        } else {
                            canvas.at(x, y)
                        },
                ),
        ),
    }
}

/// The canvas after the pixels of `patch` were composited over `region`.
pub open spec fn draw_spec(canvas: Raster, patch: Raster, region: Rect) -> Raster {
    stamp(
        canvas,
        patch,
        region.spec_left() as int,
        region.spec_top() as int,
        region.spec_cols(),
        region.spec_rows(),
    )
}

/// Composites `from` into `to` over the whole pixels of `region`, pixel by
/// pixel: the pixel `(dx, dy)` of `from` is laid over the pixel of `to` that
/// lies `dx` columns and `dy` rows from the region's rounded-down origin.
pub fn draw_image_to_image(to: &mut ImageBuffer, from: &ImageBuffer, region: &Rect)
    requires
        old(to).wf(),
        from.wf(),
        region.fits(old(to)@.width, old(to)@.height),
        region.spec_cols() <= from@.width,
        region.spec_rows() <= from@.height,
    ensures
        final(to).wf(),
        final(to)@ == draw_spec(old(to)@, from@, *region),
{
    let x0: u32 = region.left();
    let y0: u32 = region.top();
    let cols: u32 = region.cols();
    let rows: u32 = region.rows();
    proof {
        region.lemma_fits_cells(to@.width, to@.height);
    }
    let ghost before = to@;
    let mut dy: u32 = 0;
    while dy < rows
        invariant
            dy <= rows,
            to.wf(),
            from.wf(),
            before.wf(),
            to@.same_size(before),
            x0 + cols <= before.width,
            y0 + rows <= before.height,
            cols <= from@.width,
            rows <= from@.height,
            forall|x: int, y: int|
                before.contains(x, y) ==> #[trigger] to@.at(x, y) == stamp(
                    before,
                    from@,
                    x0 as int,
                    y0 as int,
                    cols as nat,
                    dy as nat,
                ).at(x, y),
        decreases rows - dy,
    {
        let mut dx: u32 = 0;
        while dx < cols
            invariant
                dx <= cols,
                dy < rows,
                to.wf(),
                from.wf(),
                before.wf(),
                to@.same_size(before),
                x0 + cols <= before.width,
                y0 + rows <= before.height,
                cols <= from@.width,
                rows <= from@.height,
                forall|x: int, y: int|
                    before.contains(x, y) ==> #[trigger] to@.at(x, y) == (if y == y0 + dy && x0 <= x
                        < x0 + dx {
                        overlay_spec(before.at(x, y), from@.at(x - x0, y - y0))
                    } else {
                        stamp(before, from@, x0 as int, y0 as int, cols as nat, dy as nat).at(x, y)
                    }),
            decreases cols - dx,
        {
            let x: u32 = x0 + dx;
            let y: u32 = y0 + dy;
            let ghost prev = to@;
            assert(prev.at(x as int, y as int) == before.at(x as int, y as int));
            let to_pixel = to.get_pixel(x, y);
            let from_pixel = from.get_pixel(dx, dy);
            let blended_pixel = overlay_pixels(to_pixel, from_pixel);
            to.set_pixel(x, y, blended_pixel);
            assert forall|xx: int, yy: int| before.contains(xx, yy) implies #[trigger] to@.at(
                xx,
                yy,
            ) == (if yy == y0 + dy && x0 <= xx < x0 + dx + 1 {
                overlay_spec(before.at(xx, yy), from@.at(xx - x0, yy - y0))
            } else {
                stamp(before, from@, x0 as int, y0 as int, cols as nat, dy as nat).at(xx, yy)
            }) by {
                assert(prev.at(xx, yy) == (if yy == y0 + dy && x0 <= xx < x0 + dx {
                    overlay_spec(before.at(xx, yy), from@.at(xx - x0, yy - y0))
                } else {
                    stamp(before, from@, x0 as int, y0 as int, cols as nat, dy as nat).at(xx, yy)
                }));
            }
            dx += 1;
        }
        dy += 1;
    }
    proof {
        let want = draw_spec(before, from@, *region);
        assert forall|y: int| 0 <= y < before.height implies #[trigger] to@.rows[y]
            == want.rows[y] by {
            assert forall|x: int| 0 <= x < before.width implies to@.rows[y][x]
                == want.rows[y][x] by {
                assert(before.contains(x, y));
                assert(to@.at(x, y) == want.at(x, y));
            }
            assert(to@.rows[y] =~= want.rows[y]);
        }
        assert(to@.rows =~= want.rows);
    }
}

} // verus!
