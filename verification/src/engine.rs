//! The greedy search: candidates are scored against the canvas one after
//! another, and each is committed at once if it brings its region closer to
//! the target.

use vstd::prelude::*;
use crate::arith::lemma_lower_mean_lower_sum;
use crate::color::Pixel;
use crate::draw::{draw_image_to_image, draw_spec, stamp};
use crate::image::{ImageBuffer, Raster};
use crate::rect::{Rect, SUBPIXEL_AREA};
use crate::score::{
    calculate_mutation,
    lemma_block_gap_change,
    lemma_block_gap_no_columns,
    lemma_region_gap_degenerate,
    lemma_scan_inside,
    mutation_distance_spec,
    mutation_gap,
    region_distance,
    region_distance_spec,
    region_gap,
    scan_rows,
    total_gap,
};
use crate::shape::{create_shape, is_candidate, lemma_shape_range_fits, Patch};

verus! {

/// The number of candidates in one generation.
pub const BATCH_SIZE: usize = 1024;

/// Whether the candidate `shape`, placed over `rect`, is accepted: its
/// projected distance is strictly lower than the present distance of the
/// region.
pub open spec fn accepts(target: Raster, canvas: Raster, shape: Raster, rect: Rect) -> bool {
    mutation_distance_spec(target, canvas, shape, rect.spec_left(), rect.spec_top())
        < region_distance_spec(target, canvas, rect)
}

/// The canvas after one candidate was considered: with the candidate
/// composited over its rectangle if it is accepted, and unchanged if not.
pub open spec fn consider_spec(
    target: Raster,
    canvas: Raster,
    shape: Raster,
    rect: Rect,
) -> Raster {
    if accepts(target, canvas, shape, rect) {
        draw_spec(canvas, shape, rect)
    } else {
        canvas
    }
}

/// The canvas after the candidates of `batch` were considered in order, each
/// against the canvas that the ones before it left.
pub open spec fn apply_batch_spec(target: Raster, canvas: Raster, batch: Seq<Patch>) -> Raster
    decreases batch.len(),
{
    if batch.len() == 0 {
        canvas
    } else {
        consider_spec(
            target,
            apply_batch_spec(target, canvas, batch.drop_last()),
            batch.last().pixels@,
            batch.last().rect,
        )
    }
}

/// Whether at least one candidate of `batch` is accepted when they are
/// considered in order.
pub open spec fn batch_commits(target: Raster, canvas: Raster, batch: Seq<Patch>) -> bool
    decreases batch.len(),
{
    if batch.len() == 0 {
        false
    } else {
        batch_commits(target, canvas, batch.drop_last()) || accepts(
            target,
            apply_batch_spec(target, canvas, batch.drop_last()),
            batch.last().pixels@,
            batch.last().rect,
        )
    }
}

/// Whether every candidate of `batch` is one that `create_shape` may propose
/// for an image of the given size.
pub open spec fn batch_generated(batch: Seq<Patch>, width: nat, height: nat) -> bool {
    forall|i: int| 0 <= i < batch.len() ==> is_candidate(#[trigger] batch[i], width, height)
}

/// Whether every candidate of `batch` is well formed and lies inside an
/// image of the given size.
pub open spec fn batch_fits(batch: Seq<Patch>, width: nat, height: nat) -> bool {
    forall|i: int|
        0 <= i < batch.len() ==> (#[trigger] batch[i]).wf() && batch[i].rect.fits(width, height)
}

/// A candidate that covers no whole pixel is never accepted.
pub proof fn lemma_degenerate_rejected(target: Raster, canvas: Raster, shape: Raster, rect: Rect)
    requires
        shape.width == rect.spec_cols(),
        shape.height == rect.spec_rows(),
        rect.spec_cols() == 0 || rect.spec_rows() == 0,
    ensures
        !accepts(target, canvas, shape, rect),
        consider_spec(target, canvas, shape, rect) == canvas,
{
    assert(shape.width * shape.height == 0) by (nonlinear_arith)
        requires
            shape.width == 0 || shape.height == 0,
    ;
    lemma_region_gap_degenerate(target, canvas, rect);
}

/// The projected sum of a candidate that lies inside the canvas is the sum
/// that its region has once the candidate is committed.
pub proof fn lemma_projection_is_exact(target: Raster, canvas: Raster, shape: Raster, rect: Rect)
    requires
        shape.width == rect.spec_cols(),
        shape.height == rect.spec_rows(),
        rect.fits(canvas.width, canvas.height),
    ensures
        mutation_gap(target, canvas, shape, rect.spec_left(), rect.spec_top()) == region_gap(
            target,
            draw_spec(canvas, shape, rect),
            rect,
        ),
{
    let x0 = rect.spec_left();
    let y0 = rect.spec_top();
    rect.lemma_fits_cells(canvas.width, canvas.height);
    if shape.width > 0 && shape.height > 0 {
        lemma_scan_inside(shape.width, shape.height, x0, y0, canvas.width, canvas.height);
    } else {
        let stamped = stamp(canvas, shape, x0 as int, y0 as int, shape.width, shape.height);
        lemma_block_gap_no_columns(
            target,
            stamped,
            x0 as int,
            y0 as int,
            scan_rows(shape.width, shape.height, x0, y0, canvas.width, canvas.height),
        );
        lemma_block_gap_no_columns(target, stamped, x0 as int, y0 as int, shape.height);
    }
}

/// Committing an accepted candidate strictly lowers the mean distance of its
/// region, to no more than the projected distance, and strictly lowers the
/// sum of the pixel distances over the region and over the whole image.
pub proof fn lemma_commit_improves(target: Raster, canvas: Raster, shape: Raster, rect: Rect)
    requires
        shape.width == rect.spec_cols(),
        shape.height == rect.spec_rows(),
        rect.fits(canvas.width, canvas.height),
        accepts(target, canvas, shape, rect),
    ensures
        region_gap(target, draw_spec(canvas, shape, rect), rect) < region_gap(target, canvas, rect),
        region_distance_spec(target, draw_spec(canvas, shape, rect), rect)
            <= mutation_distance_spec(target, canvas, shape, rect.spec_left(), rect.spec_top()),
        region_distance_spec(target, draw_spec(canvas, shape, rect), rect) < region_distance_spec(
            target,
            canvas,
            rect,
        ),
        total_gap(target, draw_spec(canvas, shape, rect)) < total_gap(target, canvas),
{
    let after = draw_spec(canvas, shape, rect);
    let x0 = rect.spec_left();
    let y0 = rect.spec_top();
    let cells = shape.width * shape.height;
    let a = region_gap(target, after, rect);
    let b = region_gap(target, canvas, rect);
    let area = rect.area();
    lemma_projection_is_exact(target, canvas, shape, rect);
    rect.lemma_fits_cells(canvas.width, canvas.height);
    rect.lemma_cells_within_area();
    assert(area != 0);
    if rect.spec_cols() == 0 || rect.spec_rows() == 0 {
        lemma_degenerate_rejected(target, canvas, shape, rect);
    }
    assert(cells > 0) by (nonlinear_arith)
        requires
            cells == shape.width * shape.height,
            shape.width > 0,
            shape.height > 0,
    ;
    lemma_lower_mean_lower_sum(a as int, b as int, cells as int, SUBPIXEL_AREA as int, area as int);
    // The mean over the nominal area is no more than the mean over the cells.
    assert(a * SUBPIXEL_AREA <= b * SUBPIXEL_AREA) by (nonlinear_arith)
        requires
            a < b,
            SUBPIXEL_AREA > 0,
    ;
    vstd::arithmetic::div_mod::lemma_div_is_ordered(
        a * SUBPIXEL_AREA,
        b * SUBPIXEL_AREA,
        area as int,
    );
    assert(a * SUBPIXEL_AREA >= 0) by (nonlinear_arith)
        requires
            a >= 0,
            SUBPIXEL_AREA > 0,
    ;
    vstd::arithmetic::div_mod::lemma_div_is_ordered_by_denominator(
        a * SUBPIXEL_AREA,
        cells * SUBPIXEL_AREA,
        area as int,
    );
    assert(SUBPIXEL_AREA * a == a * SUBPIXEL_AREA && SUBPIXEL_AREA * cells == cells * SUBPIXEL_AREA)
        by (nonlinear_arith);
    vstd::arithmetic::div_mod::lemma_div_multiples_vanish_quotient(
        SUBPIXEL_AREA as int,
        a as int,
        cells as int,
    );
    // Outside the region the canvas is as it was.
    lemma_block_gap_change(
        target,
        canvas,
        after,
        x0,
        y0,
        rect.spec_cols(),
        rect.spec_rows(),
        canvas.width,
        canvas.height,
    );
}

/// Considering a candidate never raises the sum of the pixel distances over
/// the whole image, whether the candidate is accepted or not.
pub proof fn lemma_consider_monotonic(target: Raster, canvas: Raster, shape: Raster, rect: Rect)
    requires
        canvas.wf(),
        shape.width == rect.spec_cols(),
        shape.height == rect.spec_rows(),
        rect.fits(canvas.width, canvas.height),
    ensures
        total_gap(target, consider_spec(target, canvas, shape, rect)) <= total_gap(target, canvas),
        consider_spec(target, canvas, shape, rect).wf(),
        consider_spec(target, canvas, shape, rect).same_size(canvas),
        accepts(target, canvas, shape, rect) ==> total_gap(
            target,
            consider_spec(target, canvas, shape, rect),
        ) < total_gap(target, canvas),
{
    if accepts(target, canvas, shape, rect) {
        lemma_commit_improves(target, canvas, shape, rect);
    }
}

/// Considering a batch of candidates never raises the sum of the pixel
/// distances over the whole image, and lowers it if any is accepted.
pub proof fn lemma_batch_monotonic(target: Raster, canvas: Raster, batch: Seq<Patch>)
    requires
        canvas.wf(),
        batch_fits(batch, canvas.width, canvas.height),
    ensures
        apply_batch_spec(target, canvas, batch).wf(),
        apply_batch_spec(target, canvas, batch).same_size(canvas),
        total_gap(target, apply_batch_spec(target, canvas, batch)) <= total_gap(target, canvas),
        batch_commits(target, canvas, batch) ==> total_gap(
            target,
            apply_batch_spec(target, canvas, batch),
        ) < total_gap(target, canvas),
        !batch_commits(target, canvas, batch) ==> apply_batch_spec(target, canvas, batch) == canvas,
    decreases batch.len(),
{
    if batch.len() > 0 {
        let front = batch.drop_last();
        let last = batch.last();
        assert(batch_fits(front, canvas.width, canvas.height)) by {
            assert forall|i: int| 0 <= i < front.len() implies (#[trigger] front[i]).wf()
                && front[i].rect.fits(canvas.width, canvas.height) by {
                assert(front[i] == batch[i]);
            }
        }
        lemma_batch_monotonic(target, canvas, front);
        let mid = apply_batch_spec(target, canvas, front);
        assert(last == batch[batch.len() - 1]);
        lemma_consider_monotonic(target, mid, last.pixels@, last.rect);
    }
}

/// What the engine holds: the image to approximate, the canvas that
/// approximates it, and the number of generations that changed the canvas.
pub struct EngineView {
    pub target: Raster,
    pub canvas: Raster,
    pub generation: nat,
}

/// The approximation engine. The target is never changed; the canvas has the
/// size of the target and changes only by committed candidates.
#[derive(Debug)]
pub struct Engine {
    target: ImageBuffer,
    canvas: ImageBuffer,
    generation: u64,
}

impl View for Engine {
    type V = EngineView;

    closed spec fn view(&self) -> EngineView {
        EngineView {
            target: self.target@,
            canvas: self.canvas@,
            generation: self.generation as nat,
        }
    }
}

/// The generation count after one more generation: it stops at `u64::MAX`.
pub open spec fn next_generation(generation: nat) -> nat {
    if generation < u64::MAX {
        generation + 1
    } else {
        generation
    }
}

impl Engine {
    /// Both buffers keep their own invariant.
    pub closed spec fn buffers_wf(&self) -> bool {
        self.target.wf() && self.canvas.wf()
    }

    /// The invariant of the engine: target and canvas are well formed and of
    /// the same size.
    pub open spec fn wf(&self) -> bool {
        &&& self.buffers_wf()
        &&& self@.target.wf()
        &&& self@.canvas.wf()
        &&& self@.target.same_size(self@.canvas)
        &&& self@.generation <= u64::MAX
    }

    /// Starts with a canvas of the target's size that is black and fully
    /// opaque.
    pub fn new(target: ImageBuffer) -> (engine: Engine)
        requires
            target.wf(),
        ensures
            engine.wf(),
            engine@.target == target@,
            engine@.canvas == Raster::filled(
                target@.width,
                target@.height,
                Pixel { r: 0, g: 0, b: 0, a: 255 },
            ),
            engine@.generation == 0,
    {
        let canvas = ImageBuffer::new(
            target.width(),
            target.height(),
            Pixel { r: 0, g: 0, b: 0, a: 255 },
        );
        Engine { target, canvas, generation: 0 }
    }

    /// Starts with a given canvas, which must have the target's size.
    pub fn with_canvas(target: ImageBuffer, canvas: ImageBuffer) -> (engine: Engine)
        requires
            target.wf(),
            canvas.wf(),
            target@.same_size(canvas@),
        ensures
            engine.wf(),
            engine@.target == target@,
            engine@.canvas == canvas@,
            engine@.generation == 0,
    {
        Engine { target, canvas, generation: 0 }
    }

    /// The image that is approximated.
    pub fn target(&self) -> (img: &ImageBuffer)
        requires
            self.wf(),
        ensures
            img.wf(),
            img@ == self@.target,
    {
        &self.target
    }

    /// The canvas as it stands.
    pub fn canvas(&self) -> (img: &ImageBuffer)
        requires
            self.wf(),
        ensures
            img.wf(),
            img@ == self@.canvas,
    {
        &self.canvas
    }

    /// The number of generations so far that committed a candidate.
    pub fn generation(&self) -> (n: u64)
        ensures
            n == self@.generation,
    {
        self.generation
    }

    /// Scores one candidate against the canvas as it stands and commits it
    /// if its projected distance is strictly lower than the present distance
    /// of its region. Returns whether it was committed.
    pub fn consider(&mut self, patch: &Patch) -> (committed: bool)
        requires
            old(self).wf(),
            patch.wf(),
            patch.rect.fits(old(self)@.canvas.width, old(self)@.canvas.height),
        ensures
            final(self).wf(),
            final(self)@.target == old(self)@.target,
            final(self)@.generation == old(self)@.generation,
            committed == accepts(old(self)@.target, old(self)@.canvas, patch.pixels@, patch.rect),
            final(self)@.canvas == consider_spec(
                old(self)@.target,
                old(self)@.canvas,
                patch.pixels@,
                patch.rect,
            ),
            final(self)@.canvas.same_size(old(self)@.canvas),
            patch.rect.spec_cols() == 0 || patch.rect.spec_rows() == 0 ==> !committed,
            committed ==> region_distance_spec(old(self)@.target, final(self)@.canvas, patch.rect)
                < region_distance_spec(old(self)@.target, old(self)@.canvas, patch.rect),
            committed ==> total_gap(old(self)@.target, final(self)@.canvas) < total_gap(
                old(self)@.target,
                old(self)@.canvas,
            ),
    {
        proof {
            lemma_consider_monotonic(self@.target, self@.canvas, patch.pixels@, patch.rect);
            if patch.rect.spec_cols() == 0 || patch.rect.spec_rows() == 0 {
                lemma_degenerate_rejected(self@.target, self@.canvas, patch.pixels@, patch.rect);
            }
            if accepts(self@.target, self@.canvas, patch.pixels@, patch.rect) {
                lemma_commit_improves(self@.target, self@.canvas, patch.pixels@, patch.rect);
            }
        }
        let before = region_distance(&self.target, &self.canvas, &patch.rect);
        let after = calculate_mutation(
            &self.target,
            &self.canvas,
            &patch.pixels,
            (patch.rect.left(), patch.rect.top()),
        );
        if after < before {
            draw_image_to_image(&mut self.canvas, &patch.pixels, &patch.rect);
            true
        } else {
            false
        }
    }

    /// Runs one generation on the given candidates: each is considered in
    /// order, against the canvas that the ones before it left. Returns
    /// whether any was committed, and counts the generation if so.
    pub fn apply_batch(&mut self, batch: &Vec<Patch>) -> (drawn: bool)
        requires
            old(self).wf(),
            batch_fits(batch@, old(self)@.canvas.width, old(self)@.canvas.height),
        ensures
            final(self).wf(),
            final(self)@.target == old(self)@.target,
            final(self)@.canvas == apply_batch_spec(old(self)@.target, old(self)@.canvas, batch@),
            drawn == batch_commits(old(self)@.target, old(self)@.canvas, batch@),
            final(self)@.generation == (if drawn {
                next_generation(old(self)@.generation)
            } else {
                old(self)@.generation
            }),
            final(self)@.canvas.same_size(old(self)@.canvas),
            total_gap(old(self)@.target, final(self)@.canvas) <= total_gap(
                old(self)@.target,
                old(self)@.canvas,
            ),
            drawn ==> total_gap(old(self)@.target, final(self)@.canvas) < total_gap(
                old(self)@.target,
                old(self)@.canvas,
            ),
            !drawn ==> final(self)@.canvas == old(self)@.canvas,
    {
        let ghost target = self@.target;
        let ghost start = self@.canvas;
        let mut drawn = false;
        let mut i: usize = 0;
        while i < batch.len()
            invariant
                i <= batch@.len(),
                self.wf(),
                start.wf(),
                self@.target == target,
                self@.generation == old(self)@.generation,
                self@.canvas.same_size(start),
                batch_fits(batch@, start.width, start.height),
                self@.canvas == apply_batch_spec(target, start, batch@.take(i as int)),
                drawn == batch_commits(target, start, batch@.take(i as int)),
            decreases batch@.len() - i,
        {
            proof {
                assert(batch@.take(i + 1).drop_last() == batch@.take(i as int));
                assert(batch@.take(i + 1).last() == batch@[i as int]);
            }
            let committed = self.consider(&batch[i]);
            drawn = drawn || committed;
            i += 1;
        }
        proof {
            assert(batch@.take(i as int) == batch@);
            lemma_batch_monotonic(target, start, batch@);
        }
        if drawn && self.generation < u64::MAX {
            self.generation += 1;
        }
        drawn
    }

    /// Runs one generation on `BATCH_SIZE` freshly proposed candidates.
    /// Returns whether any was committed; if none was, the canvas is as it
    /// was and there is nothing new to present.
    pub fn run_generation(&mut self) -> (drawn: bool)
        requires
            old(self).wf(),
        ensures
            final(self).wf(),
            final(self)@.target == old(self)@.target,
            final(self)@.canvas.same_size(old(self)@.canvas),
            exists|batch: Seq<Patch>|
                {
                    &&& batch.len() == BATCH_SIZE
                    &&& batch_generated(batch, old(self)@.canvas.width, old(self)@.canvas.height)
                    &&& final(self)@.canvas == #[trigger] apply_batch_spec(
                        old(self)@.target,
                        old(self)@.canvas,
                        batch,
                    )
                    &&& drawn == batch_commits(old(self)@.target, old(self)@.canvas, batch)
                },
            final(self)@.generation == (if drawn {
                next_generation(old(self)@.generation)
            } else {
                old(self)@.generation
            }),
            total_gap(old(self)@.target, final(self)@.canvas) <= total_gap(
                old(self)@.target,
                old(self)@.canvas,
            ),
            drawn ==> total_gap(old(self)@.target, final(self)@.canvas) < total_gap(
                old(self)@.target,
                old(self)@.canvas,
            ),
            !drawn ==> final(self)@.canvas == old(self)@.canvas,
    {
        let width = self.canvas.width();
        let height = self.canvas.height();
        let mut shapes: Vec<Patch> = Vec::new();
        let mut i: usize = 0;
        while i < BATCH_SIZE
            invariant
                i <= BATCH_SIZE,
                shapes@.len() == i,
                batch_generated(shapes@, width as nat, height as nat),
            decreases BATCH_SIZE - i,
        {
            let shape = create_shape(width, height);
            shapes.push(shape);
            i += 1;
        }
        proof {
            assert forall|k: int| 0 <= k < shapes@.len() implies (#[trigger] shapes@[k]).wf()
                && shapes@[k].rect.fits(width as nat, height as nat) by {
                assert(is_candidate(shapes@[k], width as nat, height as nat));
                lemma_shape_range_fits(shapes@[k].rect, width as nat, height as nat);
            }
        }
        self.apply_batch(&shapes)
    }
}

} // verus!
