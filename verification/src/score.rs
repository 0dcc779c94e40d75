//! Scoring: how far a region of the canvas is from the target, as it stands
//! and as it would be with a patch laid over it.

use vstd::prelude::*;
use crate::arith::lemma_mean_bound;
use crate::color::{
    lemma_pixel_distance_bounded,
    lemma_pixel_distance_zero,
    overlay_pixels,
    overlay_spec,
    pixel_distance,
    pixel_distance_spec,
    DISTANCE_ONE,
};
use crate::draw::stamp;
use crate::image::{ImageBuffer, Raster};
use crate::rect::{Rect, SUBPIXEL_AREA};

verus! {

/// The sum of the pixel distances between `target` and `canvas` over the `n`
/// pixels of row `y` that start at column `x0`.
pub open spec fn row_gap(target: Raster, canvas: Raster, x0: int, y: int, n: nat) -> nat
    decreases n,
{
    if n == 0 {
        0
    } else {
        row_gap(target, canvas, x0, y, (n - 1) as nat) + pixel_distance_spec(
            target.at(x0 + n - 1, y),
            canvas.at(x0 + n - 1, y),
        )
    }
}

/// The sum of the pixel distances between `target` and `canvas` over the
/// block of `w` by `h` pixels that starts at `(x0, y0)`.
pub open spec fn block_gap(target: Raster, canvas: Raster, x0: int, y0: int, w: nat, h: nat) -> nat
    decreases h,
{
    if h == 0 {
        0
    } else {
        block_gap(target, canvas, x0, y0, w, (h - 1) as nat) + row_gap(
            target,
            canvas,
            x0,
            y0 + h - 1,
            w,
        )
    }
}

/// The sum of the pixel distances over the whole pixels of `region`.
pub open spec fn region_gap(target: Raster, canvas: Raster, region: Rect) -> nat {
    block_gap(
        target,
        canvas,
        region.spec_left() as int,
        region.spec_top() as int,
        region.spec_cols(),
        region.spec_rows(),
    )
}

/// The sum of the pixel distances over the whole image.
pub open spec fn total_gap(target: Raster, canvas: Raster) -> nat {
    block_gap(target, canvas, 0, 0, canvas.width, canvas.height)
}

/// The mean pixel distance over `region`: the sum over its whole pixels
/// divided by its nominal area `w * h`, in units of `1 / DISTANCE_ONE` and
/// rounded down. A region of no area has distance 0.
pub open spec fn region_distance_spec(target: Raster, canvas: Raster, region: Rect) -> nat {
    if region.area() == 0 {
        0
    } else {
        ((region_gap(target, canvas, region) * SUBPIXEL_AREA) / (region.area() as int)) as nat
    }
}

/// The number of columns that the scan of a shape placed at column `x0`
/// covers before it meets the right edge of an image `width` wide.
pub open spec fn scan_cols(shape_width: nat, x0: nat, width: nat) -> nat {
    if x0 >= width {
        0
    } else if x0 + shape_width > width {
        (width - x0) as nat
    } else {
        shape_width
    }
}

/// The number of rows that the scan of a shape placed at `(x0, y0)` covers.
/// The scan goes row by row and ends for good at the first pixel that falls
/// outside the image: at once where the origin lies outside, within the
/// first row where a row crosses the right edge, and else at the bottom edge.
pub open spec fn scan_rows(
    shape_width: nat,
    shape_height: nat,
    x0: nat,
    y0: nat,
    width: nat,
    height: nat,
) -> nat {
    if x0 >= width || y0 >= height {
        0
    } else if x0 + shape_width > width {
        if shape_height == 0 {
            0
        } else {
            1
        }
    } else if y0 + shape_height > height {
        (height - y0) as nat
    } else {
        shape_height
    }
}

/// The sum of the pixel distances between the target and the canvas with
/// `shape` laid over it at `(x0, y0)`, over the pixels that the scan covers.
pub open spec fn mutation_gap(
    target: Raster,
    canvas: Raster,
    shape: Raster,
    x0: nat,
    y0: nat,
) -> nat {
    block_gap(
        target,
        stamp(canvas, shape, x0 as int, y0 as int, shape.width, shape.height),
        x0 as int,
        y0 as int,
        scan_cols(shape.width, x0, canvas.width),
        scan_rows(shape.width, shape.height, x0, y0, canvas.width, canvas.height),
    )
}

/// The projected mean pixel distance if `shape` were laid over the canvas at
/// `(x0, y0)`: the sum over the scanned pixels divided by the full area of
/// the shape, whether or not the image edge cut the scan short, in units of
/// `1 / DISTANCE_ONE` and rounded down. A shape of no area has distance 0.
pub open spec fn mutation_distance_spec(
    target: Raster,
    canvas: Raster,
    shape: Raster,
    x0: nat,
    y0: nat,
) -> nat {
    if shape.width * shape.height == 0 {
        0
    } else {
        mutation_gap(target, canvas, shape, x0, y0) / (shape.width * shape.height)
    }
}

/// A row sum is at most `DISTANCE_ONE` for each pixel.
pub proof fn lemma_row_gap_bound(target: Raster, canvas: Raster, x0: int, y: int, n: nat)
    ensures
        row_gap(target, canvas, x0, y, n) <= n * DISTANCE_ONE,
    decreases n,
{
    if n > 0 {
        lemma_row_gap_bound(target, canvas, x0, y, (n - 1) as nat);
        lemma_pixel_distance_bounded(target.at(x0 + n - 1, y), canvas.at(x0 + n - 1, y));
        assert((n - 1) * DISTANCE_ONE + DISTANCE_ONE == n * DISTANCE_ONE) by (nonlinear_arith);
    }
}

/// A block sum is at most `DISTANCE_ONE` for each pixel.
pub proof fn lemma_block_gap_bound(target: Raster, canvas: Raster, x0: int, y0: int, w: nat, h: nat)
    ensures
        block_gap(target, canvas, x0, y0, w, h) <= w * h * DISTANCE_ONE,
    decreases h,
{
    if h > 0 {
        lemma_block_gap_bound(target, canvas, x0, y0, w, (h - 1) as nat);
        lemma_row_gap_bound(target, canvas, x0, y0 + h - 1, w);
        assert(w * (h - 1) * DISTANCE_ONE + w * DISTANCE_ONE == w * h * DISTANCE_ONE)
            by (nonlinear_arith);
    } else {
        assert(w * h * DISTANCE_ONE == 0) by (nonlinear_arith)
            requires
                h == 0,
        ;
    }
}

/// A sum of at most `DISTANCE_ONE` for each pixel of an image, and for one
/// pixel more, fits 64 bits.
pub proof fn lemma_running_sum_fits(w: nat, h: nat, n: nat)
    requires
        w <= 0xffff,
        h <= 0xffff,
        n <= 0xffff,
    ensures
        w * h * DISTANCE_ONE + n * DISTANCE_ONE + DISTANCE_ONE <= u64::MAX,
{
    assert(w * h * DISTANCE_ONE <= 0xffff * 0xffff * 195075) by (nonlinear_arith)
        requires
            w <= 0xffff,
            h <= 0xffff,
            DISTANCE_ONE == 195075,
    ;
    assert(n * DISTANCE_ONE <= 0xffff * 195075) by (nonlinear_arith)
        requires
            n <= 0xffff,
            DISTANCE_ONE == 195075,
    ;
}

/// A block without columns has sum 0.
pub proof fn lemma_block_gap_no_columns(target: Raster, canvas: Raster, x0: int, y0: int, h: nat)
    ensures
        block_gap(target, canvas, x0, y0, 0, h) == 0,
    decreases h,
{
    if h > 0 {
        lemma_block_gap_no_columns(target, canvas, x0, y0, (h - 1) as nat);
    }
}

/// A row sum depends only on the pixels of its row segment.
pub proof fn lemma_row_gap_agree(
    target: Raster,
    canvas1: Raster,
    canvas2: Raster,
    x0: int,
    y: int,
    n: nat,
)
    requires
        forall|x: int| x0 <= x < x0 + n ==> canvas1.at(x, y) == canvas2.at(x, y),
    ensures
        row_gap(target, canvas1, x0, y, n) == row_gap(target, canvas2, x0, y, n),
    decreases n,
{
    if n > 0 {
        lemma_row_gap_agree(target, canvas1, canvas2, x0, y, (n - 1) as nat);
    }
}

/// Splitting a row segment in two splits its sum.
pub proof fn lemma_row_gap_split(target: Raster, canvas: Raster, x0: int, y: int, n1: nat, n2: nat)
    ensures
        row_gap(target, canvas, x0, y, n1 + n2) == row_gap(target, canvas, x0, y, n1) + row_gap(
            target,
            canvas,
            x0 + n1,
            y,
            n2,
        ),
    decreases n2,
{
    if n2 > 0 {
        lemma_row_gap_split(target, canvas, x0, y, n1, (n2 - 1) as nat);
        assert((n1 + n2 - 1) as nat == n1 + (n2 - 1) as nat);
    }
}

/// Two canvases that differ only inside the columns `[x0, x0 + w)` of row
/// `y` differ in the sum of the whole row by what they differ in over those
/// columns.
pub proof fn lemma_row_gap_change(
    target: Raster,
    canvas1: Raster,
    canvas2: Raster,
    y: int,
    x0: nat,
    w: nat,
    width: nat,
)
    requires
        x0 + w <= width,
        forall|x: int|
            0 <= x < width && !(x0 <= x < x0 + w) ==> canvas1.at(x, y) == canvas2.at(x, y),
    ensures
        row_gap(target, canvas2, 0, y, width) - row_gap(target, canvas1, 0, y, width) == row_gap(
            target,
            canvas2,
            x0 as int,
            y,
            w,
        ) - row_gap(target, canvas1, x0 as int, y, w),
{
    let rest = (width - x0 - w) as nat;
    lemma_row_gap_split(target, canvas1, 0, y, x0, w);
    lemma_row_gap_split(target, canvas2, 0, y, x0, w);
    lemma_row_gap_split(target, canvas1, 0, y, x0 + w, rest);
    lemma_row_gap_split(target, canvas2, 0, y, x0 + w, rest);
    lemma_row_gap_agree(target, canvas1, canvas2, 0, y, x0);
    lemma_row_gap_agree(target, canvas1, canvas2, (x0 + w) as int, y, rest);
}

/// The number of rows of the block `[y0, y0 + h)` among the first `n` rows.
pub open spec fn rows_reached(n: nat, y0: nat, h: nat) -> nat {
    if n <= y0 {
        0
    } else if n - y0 >= h {
        h
    } else {
        (n - y0) as nat
    }
}

/// Two canvases that differ only inside a block differ in the sum over the
/// first `n` rows by what they differ in over the rows of the block among
/// them.
pub proof fn lemma_block_gap_change(
    target: Raster,
    canvas1: Raster,
    canvas2: Raster,
    x0: nat,
    y0: nat,
    w: nat,
    h: nat,
    width: nat,
    n: nat,
)
    requires
        x0 + w <= width,
        forall|x: int, y: int|
            0 <= x < width && 0 <= y < n && !(x0 <= x < x0 + w && y0 <= y < y0 + h) ==> canvas1.at(
                x,
                y,
            ) == canvas2.at(x, y),
    ensures
        block_gap(target, canvas2, 0, 0, width, n) - block_gap(target, canvas1, 0, 0, width, n)
            == block_gap(target, canvas2, x0 as int, y0 as int, w, rows_reached(n, y0, h))
            - block_gap(target, canvas1, x0 as int, y0 as int, w, rows_reached(n, y0, h)),
    decreases n,
{
    if n > 0 {
        let y = n - 1;
        lemma_block_gap_change(target, canvas1, canvas2, x0, y0, w, h, width, (n - 1) as nat);
        if y0 <= y < y0 + h {
            lemma_row_gap_change(target, canvas1, canvas2, y, x0, w, width);
            assert(rows_reached(n, y0, h) == rows_reached((n - 1) as nat, y0, h) + 1);
            assert(y0 + rows_reached(n, y0, h) - 1 == y);
        } else {
            lemma_row_gap_agree(target, canvas1, canvas2, 0, y, width);
            assert(rows_reached(n, y0, h) == rows_reached((n - 1) as nat, y0, h));
        }
    }
}

/// An image is at distance 0 from itself over every block.
pub proof fn lemma_block_gap_identical(img: Raster, x0: int, y0: int, w: nat, h: nat)
    ensures
        block_gap(img, img, x0, y0, w, h) == 0,
    decreases h, w,
{
    if h > 0 {
        lemma_block_gap_identical(img, x0, y0, w, (h - 1) as nat);
        lemma_row_gap_identical(img, x0, y0 + h - 1, w);
    }
}

/// An image is at distance 0 from itself over every row segment.
pub proof fn lemma_row_gap_identical(img: Raster, x0: int, y: int, n: nat)
    ensures
        row_gap(img, img, x0, y, n) == 0,
    decreases n,
{
    if n > 0 {
        lemma_row_gap_identical(img, x0, y, (n - 1) as nat);
        lemma_pixel_distance_zero(img.at(x0 + n - 1, y), img.at(x0 + n - 1, y));
    }
}

/// Identical buffers have zero mismatch over every region.
pub proof fn lemma_region_distance_identical(img: Raster, region: Rect)
    ensures
        region_distance_spec(img, img, region) == 0,
{
    lemma_block_gap_identical(
        img,
        region.spec_left() as int,
        region.spec_top() as int,
        region.spec_cols(),
        region.spec_rows(),
    );
    if region.area() != 0 {
        assert((0 * SUBPIXEL_AREA) / (region.area() as int) == 0) by (nonlinear_arith)
            requires
                region.area() > 0,
        ;
    }
}

/// A region that covers no whole pixel has sum 0 and distance 0.
pub proof fn lemma_region_gap_degenerate(target: Raster, canvas: Raster, rect: Rect)
    requires
        rect.spec_cols() == 0 || rect.spec_rows() == 0,
    ensures
        region_gap(target, canvas, rect) == 0,
        region_distance_spec(target, canvas, rect) == 0,
{
    lemma_block_gap_no_columns(
        target,
        canvas,
        rect.spec_left() as int,
        rect.spec_top() as int,
        rect.spec_rows(),
    );
    if rect.area() != 0 {
        assert((0 * SUBPIXEL_AREA) / (rect.area() as int) == 0) by (nonlinear_arith)
            requires
                rect.area() > 0,
        ;
    }
}

/// The mean distance over a region is at most `DISTANCE_ONE`.
pub proof fn lemma_region_distance_bounded(target: Raster, canvas: Raster, region: Rect)
    ensures
        region_distance_spec(target, canvas, region) <= DISTANCE_ONE,
{
    if region.area() != 0 {
        let gap = region_gap(target, canvas, region);
        let cells = region.spec_cols() * region.spec_rows();
        lemma_block_gap_bound(
            target,
            canvas,
            region.spec_left() as int,
            region.spec_top() as int,
            region.spec_cols(),
            region.spec_rows(),
        );
        region.lemma_cells_within_area();
        assert(gap * SUBPIXEL_AREA <= DISTANCE_ONE * region.area()) by (nonlinear_arith)
            requires
                gap <= cells * DISTANCE_ONE,
                cells * SUBPIXEL_AREA <= region.area(),
                SUBPIXEL_AREA > 0,
                DISTANCE_ONE > 0,
        ;
        lemma_mean_bound(gap * SUBPIXEL_AREA, region.area() as int, DISTANCE_ONE as int);
    }
}

/// The mean per-pixel distance between `original_image` and `mutating_image`
/// over `region`, in units of `1 / DISTANCE_ONE`: the pixel distances of the
/// region's whole pixels, counted from its rounded-down origin, are summed
/// and divided by its nominal area `w * h`. A region of no area has
/// distance 0.
pub fn region_distance(
    original_image: &ImageBuffer,
    mutating_image: &ImageBuffer,
    region: &Rect,
) -> (d: u64)
    requires
        original_image.wf(),
        mutating_image.wf(),
        original_image@.same_size(mutating_image@),
        region.fits(original_image@.width, original_image@.height),
    ensures
        d == region_distance_spec(original_image@, mutating_image@, *region),
        d <= DISTANCE_ONE,
{
    let x0: u32 = region.left();
    let y0: u32 = region.top();
    let cols: u32 = region.cols();
    let rows: u32 = region.rows();
    let ghost target = original_image@;
    let ghost canvas = mutating_image@;
    proof {
        region.lemma_fits_cells(target.width, target.height);
    }
    let mut val: u64 = 0;
    let mut dy: u32 = 0;
    while dy < rows
        invariant
            dy <= rows,
            rows <= 0xffff,
            cols <= 0xffff,
            original_image.wf(),
            mutating_image.wf(),
            target == original_image@,
            canvas == mutating_image@,
            target.same_size(canvas),
            x0 + cols <= target.width,
            y0 + rows <= target.height,
            val == block_gap(target, canvas, x0 as int, y0 as int, cols as nat, dy as nat),
        decreases rows - dy,
    {
        let ghost base = val;
        let mut dx: u32 = 0;
        while dx < cols
            invariant
                dx <= cols,
                dy < rows,
                rows <= 0xffff,
                cols <= 0xffff,
                original_image.wf(),
                mutating_image.wf(),
                target == original_image@,
                canvas == mutating_image@,
                target.same_size(canvas),
                x0 + cols <= target.width,
                y0 + rows <= target.height,
                base == block_gap(target, canvas, x0 as int, y0 as int, cols as nat, dy as nat),
                val == base + row_gap(target, canvas, x0 as int, y0 + dy, dx as nat),
            decreases cols - dx,
        {
            let y: u32 = y0 + dy;
            let x: u32 = x0 + dx;
            let d = pixel_distance(original_image.get_pixel(x, y), mutating_image.get_pixel(x, y));
            proof {
                lemma_block_gap_bound(target, canvas, x0 as int, y0 as int, cols as nat, dy as nat);
                lemma_row_gap_bound(target, canvas, x0 as int, y0 + dy, dx as nat);
                lemma_running_sum_fits(cols as nat, dy as nat, dx as nat);
            }
            val += d;
            dx += 1;
        }
        dy += 1;
    }
    let unit: u64 = SUBPIXEL_AREA;
    assert(region.w * region.h <= 0xffff_ffff * 0xffff_ffff) by (nonlinear_arith)
        requires
            0 <= region.w <= 0xffff_ffff,
            0 <= region.h <= 0xffff_ffff,
    ;
    let area: u64 = region.w as u64 * region.h as u64;
    if area == 0 {
        0
    } else {
        proof {
            lemma_region_distance_bounded(target, canvas, *region);
            lemma_block_gap_bound(target, canvas, x0 as int, y0 as int, cols as nat, rows as nat);
            lemma_running_sum_fits(cols as nat, rows as nat, 0);
            assert(val * unit <= 0xffff_ffff_ffff_ffff * 0x1_0000_0000) by (nonlinear_arith)
                requires
                    0 <= val <= 0xffff_ffff_ffff_ffff,
                    unit == 0x1_0000_0000,
            ;
        }
        ((val as u128 * unit as u128) / area as u128) as u64
    }
}

/// The scan of a shape covers no more than the shape.
pub proof fn lemma_scan_within_shape(
    shape_width: nat,
    shape_height: nat,
    x0: nat,
    y0: nat,
    width: nat,
    height: nat,
)
    ensures
        scan_cols(shape_width, x0, width) <= shape_width,
        scan_rows(shape_width, shape_height, x0, y0, width, height) <= shape_height,
        scan_cols(shape_width, x0, width) * scan_rows(
            shape_width,
            shape_height,
            x0,
            y0,
            width,
            height,
        ) <= shape_width * shape_height,
{
    let c = scan_cols(shape_width, x0, width);
    let r = scan_rows(shape_width, shape_height, x0, y0, width, height);
    assert(c * r <= shape_width * shape_height) by (nonlinear_arith)
        requires
            c <= shape_width,
            r <= shape_height,
    ;
}

/// A shape that lies inside the image is scanned whole.
pub proof fn lemma_scan_inside(
    shape_width: nat,
    shape_height: nat,
    x0: nat,
    y0: nat,
    width: nat,
    height: nat,
)
    requires
        shape_width > 0,
        shape_height > 0,
        x0 + shape_width <= width,
        y0 + shape_height <= height,
    ensures
        scan_cols(shape_width, x0, width) == shape_width,
        scan_rows(shape_width, shape_height, x0, y0, width, height) == shape_height,
{
}

/// The projected mean distance is at most `DISTANCE_ONE`.
pub proof fn lemma_mutation_distance_bounded(
    target: Raster,
    canvas: Raster,
    shape: Raster,
    x0: nat,
    y0: nat,
)
    ensures
        mutation_gap(target, canvas, shape, x0, y0) <= shape.width * shape.height * DISTANCE_ONE,
        mutation_distance_spec(target, canvas, shape, x0, y0) <= DISTANCE_ONE,
{
    let c = scan_cols(shape.width, x0, canvas.width);
    let r = scan_rows(shape.width, shape.height, x0, y0, canvas.width, canvas.height);
    let cells = shape.width * shape.height;
    let gap = mutation_gap(target, canvas, shape, x0, y0);
    lemma_scan_within_shape(shape.width, shape.height, x0, y0, canvas.width, canvas.height);
    lemma_block_gap_bound(
        target,
        stamp(canvas, shape, x0 as int, y0 as int, shape.width, shape.height),
        x0 as int,
        y0 as int,
        c,
        r,
    );
    assert(c * r * DISTANCE_ONE <= cells * DISTANCE_ONE) by (nonlinear_arith)
        requires
            c * r <= cells,
    ;
    if cells != 0 {
        assert(cells * DISTANCE_ONE == DISTANCE_ONE * cells) by (nonlinear_arith);
        lemma_mean_bound(gap as int, cells as int, DISTANCE_ONE as int);
    }
}

/// The projected mean per-pixel distance between `original_image` and
/// `mutating_image` if `mutating_shape` were laid over the latter with its
/// first pixel at `coord`, in units of `1 / DISTANCE_ONE`.
///
/// The pixels of the shape are visited row by row. For each the distance
/// between the target pixel and the overlay of the shape pixel on the canvas
/// pixel is added up. At the first pixel that falls outside the image the
/// scan ends, and no later pixel counts. The sum is divided by the full
/// area of the shape even where the scan ended early. A shape of no area
/// has distance 0.
pub fn calculate_mutation(
    original_image: &ImageBuffer,
    mutating_image: &ImageBuffer,
    mutating_shape: &ImageBuffer,
    coord: (u32, u32),
) -> (d: u64)
    requires
        original_image.wf(),
        mutating_image.wf(),
        mutating_shape.wf(),
        original_image@.same_size(mutating_image@),
    ensures
        d == mutation_distance_spec(
            original_image@,
            mutating_image@,
            mutating_shape@,
            coord.0 as nat,
            coord.1 as nat,
        ),
        d <= DISTANCE_ONE,
{
    let width: u32 = original_image.width() as u32;
    let height: u32 = original_image.height() as u32;
    let sw: u32 = mutating_shape.width() as u32;
    let sh: u32 = mutating_shape.height() as u32;
    let ghost target = original_image@;
    let ghost canvas = mutating_image@;
    let ghost shape = mutating_shape@;
    let ghost cx = coord.0 as int;
    let ghost cy = coord.1 as int;
    let ghost stamped = stamp(canvas, shape, cx, cy, shape.width, shape.height);
    let ghost want = mutation_gap(target, canvas, shape, coord.0 as nat, coord.1 as nat);
    let mut val: u64 = 0;
    let mut dy: u32 = 0;
    let mut cropped = false;
    while dy < sh && !cropped
        invariant
            dy <= sh,
            sw <= 0xffff,
            sh <= 0xffff,
            original_image.wf(),
            mutating_image.wf(),
            mutating_shape.wf(),
            target == original_image@,
            canvas == mutating_image@,
            shape == mutating_shape@,
            target.same_size(canvas),
            width == canvas.width,
            height == canvas.height,
            sw == shape.width,
            sh == shape.height,
            cx == coord.0,
            cy == coord.1,
            stamped == stamp(canvas, shape, cx, cy, shape.width, shape.height),
            want == mutation_gap(target, canvas, shape, coord.0 as nat, coord.1 as nat),
            cropped ==> val == want,
            !cropped ==> val == block_gap(target, stamped, cx, cy, sw as nat, dy as nat),
            !cropped && dy > 0 && sw > 0 ==> cx + sw <= width && cy + dy <= height,
        decreases (sh - dy) + (if cropped { 0int } else { 1int }),
    {
        let ghost base = val;
        let mut dx: u32 = 0;
        while dx < sw && !cropped
            invariant
                dx <= sw,
                dy < sh,
                sw <= 0xffff,
                sh <= 0xffff,
                original_image.wf(),
                mutating_image.wf(),
                mutating_shape.wf(),
                target == original_image@,
                canvas == mutating_image@,
                shape == mutating_shape@,
                target.same_size(canvas),
                width == canvas.width,
                height == canvas.height,
                sw == shape.width,
                sh == shape.height,
                cx == coord.0,
                cy == coord.1,
                stamped == stamp(canvas, shape, cx, cy, shape.width, shape.height),
                want == mutation_gap(target, canvas, shape, coord.0 as nat, coord.1 as nat),
                base == block_gap(target, stamped, cx, cy, sw as nat, dy as nat),
                dy > 0 && sw > 0 ==> cx + sw <= width && cy + dy <= height,
                cropped ==> val == want,
                !cropped ==> val == base + row_gap(target, stamped, cx, cy + dy, dx as nat),
                !cropped && dx > 0 ==> cx + dx <= width && cy + dy < height,
            decreases (sw - dx) + (if cropped { 0int } else { 1int }),
        {
            let gx: u64 = coord.0 as u64 + dx as u64;
            let gy: u64 = coord.1 as u64 + dy as u64;
            if gx >= width as u64 || gy >= height as u64 {
                proof {
                    lemma_block_gap_no_columns(
                        target,
                        stamped,
                        cx,
                        cy,
                        scan_rows(
                            shape.width,
                            shape.height,
                            coord.0 as nat,
                            coord.1 as nat,
                            canvas.width,
                            canvas.height,
                        ),
                    );
                    if gx >= width && dx > 0 {
                        assert(block_gap(target, stamped, cx, cy, dx as nat, 1) == block_gap(
                            target,
                            stamped,
                            cx,
                            cy,
                            dx as nat,
                            0,
                        ) + row_gap(target, stamped, cx, cy + 1 - 1, dx as nat));
                    }
                }
                cropped = true;
            } else {
                let d = pixel_distance(
                    original_image.get_pixel(gx as u32, gy as u32),
                    overlay_pixels(
                        mutating_image.get_pixel(gx as u32, gy as u32),
                        mutating_shape.get_pixel(dx, dy),
                    ),
                );
                proof {
                    assert(canvas.contains(gx as int, gy as int));
                    assert(stamped.at(gx as int, gy as int) == overlay_spec(
                        canvas.at(gx as int, gy as int),
                        shape.at(dx as int, dy as int),
                    ));
                    lemma_block_gap_bound(target, stamped, cx, cy, sw as nat, dy as nat);
                    lemma_row_gap_bound(target, stamped, cx, cy + dy, dx as nat);
                    lemma_running_sum_fits(sw as nat, dy as nat, dx as nat);
                }
                val += d;
                dx += 1;
            }
        }
        if !cropped {
            dy += 1;
        }
    }
    proof {
        if !cropped {
            lemma_block_gap_no_columns(target, stamped, cx, cy, sh as nat);
            lemma_block_gap_no_columns(
                target,
                stamped,
                cx,
                cy,
                scan_rows(
                    shape.width,
                    shape.height,
                    coord.0 as nat,
                    coord.1 as nat,
                    canvas.width,
                    canvas.height,
                ),
            );
        }
        assert(val == want);
        lemma_mutation_distance_bounded(target, canvas, shape, coord.0 as nat, coord.1 as nat);
        assert(sw * sh <= 0xffff * 0xffff) by (nonlinear_arith)
            requires
                0 <= sw <= 0xffff,
                0 <= sh <= 0xffff,
        ;
    }
    let area: u64 = sw as u64 * sh as u64;
    if area == 0 {
        0
    } else {
        val / area
    }
}

} // verus!
