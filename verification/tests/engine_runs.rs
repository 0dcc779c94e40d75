use mosaic::color::{pixel_distance, Pixel};
use mosaic::engine::{Engine, BATCH_SIZE};
use mosaic::image::ImageBuffer;
use mosaic::rect::{Rect, SUBPIXEL};
use mosaic::score::{calculate_mutation, region_distance};
use mosaic::shape::{create_shape, max_extent, max_origin, Patch, SIZE_PARTS};

fn black() -> Pixel {
    Pixel::new(0, 0, 0, 255)
}

fn red() -> Pixel {
    Pixel::new(255, 0, 0, 255)
}

fn pattern(width: u16, height: u16) -> ImageBuffer {
    let mut img = ImageBuffer::new(width, height, black());
    for y in 0..height as u32 {
        for x in 0..width as u32 {
            let r: u8 = (x * 13 + y * 7) as u8;
            let g: u8 = (x * x + 3 * y) as u8;
            let b: u8 = (200 - 5 * y) as u8;
            img.set_pixel(x, y, Pixel::new(r, g, b, 255));
        }
    }
    img
}

fn total(target: &ImageBuffer, canvas: &ImageBuffer) -> u64 {
    let mut sum: u64 = 0;
    for y in 0..target.height() as u32 {
        for x in 0..target.width() as u32 {
            sum += pixel_distance(target.get_pixel(x, y), canvas.get_pixel(x, y));
        }
    }
    sum
}

fn same_pixels(a: &ImageBuffer, b: &ImageBuffer) -> bool {
    a.width() == b.width() && a.height() == b.height() && a.to_rgba() == b.to_rgba()
}

#[test]
fn new_engine_starts_black_and_opaque() {
    let engine = Engine::new(ImageBuffer::new(3, 2, red()));
    assert_eq!(engine.canvas().width(), 3);
    assert_eq!(engine.canvas().height(), 2);
    for y in 0..2 {
        for x in 0..3 {
            assert_eq!(engine.canvas().get_pixel(x, y), black());
            assert_eq!(engine.target().get_pixel(x, y), red());
        }
    }
    assert_eq!(engine.generation(), 0);
}

#[test]
fn full_red_patch_on_black_canvas_is_accepted() {
    let mut engine = Engine::new(ImageBuffer::new(4, 4, red()));
    let full = Rect::from_pixels(0, 0, 4, 4);
    let patch = Patch::solid(full, red());
    let before = region_distance(engine.target(), engine.canvas(), &full);
    let after = calculate_mutation(engine.target(), engine.canvas(), &patch.pixels, (0, 0));
    assert!(before > 0);
    assert_eq!(after, 0);
    assert!(engine.consider(&patch));
    assert_eq!(region_distance(engine.target(), engine.canvas(), &full), 0);
    for y in 0..4 {
        for x in 0..4 {
            assert_eq!(engine.canvas().get_pixel(x, y), red());
        }
    }
}

#[test]
fn patch_that_changes_nothing_is_rejected() {
    let target = ImageBuffer::new(4, 4, red());
    let canvas = ImageBuffer::new(4, 4, red());
    let mut engine = Engine::with_canvas(target, canvas);
    let region = Rect::from_pixels(1, 1, 2, 2);
    // Opaque red over red, and half transparent red over red: the composited
    // colour is the colour that is there.
    for alpha in [255u8, 128, 1] {
        let patch = Patch::solid(region, Pixel::new(255, 0, 0, alpha));
        let before = region_distance(engine.target(), engine.canvas(), &region);
        let after = calculate_mutation(engine.target(), engine.canvas(), &patch.pixels, (1, 1));
        assert_eq!(after, before);
        assert!(!engine.consider(&patch));
        assert!(same_pixels(engine.canvas(), &ImageBuffer::new(4, 4, red())));
    }
}

#[test]
fn patch_that_equals_a_mismatched_canvas_is_rejected() {
    let mut engine = Engine::new(ImageBuffer::new(4, 4, red()));
    let region = Rect::from_pixels(0, 0, 2, 2);
    let patch = Patch::solid(region, black());
    let before = region_distance(engine.target(), engine.canvas(), &region);
    let after = calculate_mutation(engine.target(), engine.canvas(), &patch.pixels, (0, 0));
    assert_eq!(after, before);
    assert!(!engine.consider(&patch));
    assert!(same_pixels(engine.canvas(), &ImageBuffer::new(4, 4, black())));
}

#[test]
fn worsening_patch_is_rejected() {
    let target = ImageBuffer::new(4, 4, red());
    let canvas = ImageBuffer::new(4, 4, Pixel::new(200, 0, 0, 255));
    let mut engine = Engine::with_canvas(target, canvas);
    let patch = Patch::solid(Rect::from_pixels(0, 0, 4, 4), Pixel::new(0, 0, 255, 255));
    assert!(!engine.consider(&patch));
    assert!(same_pixels(engine.canvas(), &ImageBuffer::new(4, 4, Pixel::new(200, 0, 0, 255))));
}

#[test]
fn degenerate_patch_is_never_committed() {
    let mut engine = Engine::new(ImageBuffer::new(4, 4, red()));
    let rects = [
        Rect::new(0, 0, 0, 0),
        Rect::new(0, 0, 0, 4 * SUBPIXEL),
        Rect::new(0, 0, 4 * SUBPIXEL, 0),
        Rect::new(SUBPIXEL, SUBPIXEL, SUBPIXEL - 1, 3 * SUBPIXEL),
        Rect::new(SUBPIXEL, SUBPIXEL, 3 * SUBPIXEL, SUBPIXEL - 1),
        Rect::new(4 * SUBPIXEL, 4 * SUBPIXEL, 0, 0),
    ];
    for rect in rects {
        let patch = Patch::solid(rect, red());
        assert_eq!(patch.pixels.to_rgba().len(), 0);
        assert_eq!(region_distance(engine.target(), engine.canvas(), &rect), 0);
        let origin = (rect.left(), rect.top());
        assert_eq!(calculate_mutation(engine.target(), engine.canvas(), &patch.pixels, origin), 0);
        assert!(!engine.consider(&patch));
        assert!(same_pixels(engine.canvas(), &ImageBuffer::new(4, 4, black())));
    }
    assert!(!engine.apply_batch(&Vec::new()));
    assert_eq!(engine.generation(), 0);
}

#[test]
fn committed_patch_lowers_the_distance_of_its_region() {
    let target = pattern(12, 10);
    let mut engine = Engine::new(pattern(12, 10));
    let mut commits: u32 = 0;
    for step in 0..200u32 {
        let rect = Rect::new(
            (step * 7919) % (9 * SUBPIXEL),
            (step * 104729) % (7 * SUBPIXEL),
            (step * 31337) % (3 * SUBPIXEL),
            (step * 1299709) % (3 * SUBPIXEL),
        );
        assert!(rect.fits_within(12, 10));
        let color = Pixel::new(
            (step * 37) as u8,
            (step * 91) as u8,
            (step * 53) as u8,
            (step * 29) as u8,
        );
        let patch = Patch::solid(rect, color);
        let origin = (rect.left(), rect.top());
        let before = region_distance(&target, engine.canvas(), &rect);
        let after = calculate_mutation(&target, engine.canvas(), &patch.pixels, origin);
        let total_before = total(&target, engine.canvas());
        let committed = engine.consider(&patch);
        assert_eq!(committed, after < before);
        let now = region_distance(&target, engine.canvas(), &rect);
        let total_now = total(&target, engine.canvas());
        if committed {
            commits += 1;
            assert!(now < before);
            assert!(now <= after);
            assert!(total_now < total_before);
        } else {
            assert_eq!(now, before);
            assert_eq!(total_now, total_before);
        }
    }
    assert!(commits > 0);
}

#[test]
fn batch_is_considered_in_order() {
    let target = ImageBuffer::new(4, 4, red());
    let full = Rect::from_pixels(0, 0, 4, 4);
    let half = Patch::solid(full, Pixel::new(255, 0, 0, 128));
    let whole = Patch::solid(full, red());
    // The full patch first: the half one then brings nothing.
    let mut engine = Engine::new(ImageBuffer::new(4, 4, red()));
    assert!(engine.apply_batch(&vec![
        Patch::solid(full, red()),
        Patch::solid(full, Pixel::new(255, 0, 0, 128)),
    ]));
    assert_eq!(region_distance(&target, engine.canvas(), &full), 0);
    assert_eq!(engine.generation(), 1);
    // The half patch first: both are committed, one on top of the other.
    let mut engine = Engine::new(ImageBuffer::new(4, 4, red()));
    let mut by_hand = Engine::new(ImageBuffer::new(4, 4, red()));
    assert!(by_hand.consider(&half));
    assert_eq!(by_hand.canvas().get_pixel(0, 0), Pixel::new(128, 0, 0, 255));
    assert!(by_hand.consider(&whole));
    assert!(engine.apply_batch(&vec![half, whole]));
    assert!(same_pixels(engine.canvas(), by_hand.canvas()));
    assert_eq!(engine.generation(), 1);
    assert_eq!(by_hand.generation(), 0);
}

#[test]
fn batch_without_commit_is_not_counted() {
    let target = ImageBuffer::new(4, 4, red());
    let mut engine = Engine::with_canvas(target, ImageBuffer::new(4, 4, red()));
    let batch = vec![
        Patch::solid(Rect::from_pixels(0, 0, 4, 4), black()),
        Patch::solid(Rect::from_pixels(1, 1, 2, 2), Pixel::new(0, 255, 0, 90)),
        Patch::solid(Rect::new(0, 0, 0, 0), red()),
    ];
    assert!(!engine.apply_batch(&batch));
    assert_eq!(engine.generation(), 0);
    assert!(same_pixels(engine.canvas(), &ImageBuffer::new(4, 4, red())));
    assert!(engine.apply_batch(&vec![Patch::solid(Rect::from_pixels(0, 0, 1, 1), red())]) == false);
    let mut engine = Engine::new(ImageBuffer::new(4, 4, red()));
    assert!(engine.apply_batch(&vec![Patch::solid(Rect::from_pixels(0, 0, 1, 1), red())]));
    assert!(engine.apply_batch(&vec![Patch::solid(Rect::from_pixels(1, 0, 1, 1), red())]));
    assert_eq!(engine.generation(), 2);
}

#[test]
fn patch_must_have_the_size_of_its_rectangle() {
    let rect = Rect::new(SUBPIXEL / 2, 0, 2 * SUBPIXEL + 9, 3 * SUBPIXEL);
    assert!(Patch::new(ImageBuffer::new(2, 3, red()), rect).is_some());
    assert!(Patch::new(ImageBuffer::new(3, 3, red()), rect).is_none());
    assert!(Patch::new(ImageBuffer::new(2, 2, red()), rect).is_none());
    assert!(Patch::new(ImageBuffer::new(3, 2, red()), rect).is_none());
    let patch = Patch::new(ImageBuffer::new(2, 3, red()), rect).unwrap();
    assert_eq!(patch.rect, rect);
    assert_eq!(patch.pixels.width(), 2);
    let solid = Patch::solid(rect, Pixel::new(1, 2, 3, 4));
    assert_eq!(solid.rect, rect);
    assert_eq!(solid.pixels.width(), 2);
    assert_eq!(solid.pixels.height(), 3);
    for y in 0..3 {
        for x in 0..2 {
            assert_eq!(solid.pixels.get_pixel(x, y), Pixel::new(1, 2, 3, 4));
        }
    }
}

#[test]
fn shape_limits_are_fifths_of_the_canvas() {
    assert_eq!(SIZE_PARTS, 5);
    assert_eq!(max_extent(100), 20 * SUBPIXEL);
    assert_eq!(max_origin(100), 80 * SUBPIXEL);
    assert_eq!(max_extent(0), 0);
    assert_eq!(max_origin(0), 0);
    // 4 / 5 = 0.8 pixels and 4 * 4 / 5 = 3.2 pixels, rounded down.
    assert_eq!(max_extent(4), 52428);
    assert_eq!(max_origin(4), 209715);
    assert_eq!(max_extent(65535), 858980352);
    assert_eq!(max_origin(65535), 3435921408);
}

#[test]
fn created_shapes_stay_in_range() {
    macroquad::rand::srand(7);
    for _ in 0..500 {
        let patch = create_shape(300, 200);
        let rect = patch.rect;
        assert!(rect.x <= max_origin(300));
        assert!(rect.y <= max_origin(200));
        assert!(rect.w <= max_extent(300));
        assert!(rect.h <= max_extent(200));
        assert!(rect.fits_within(300, 200));
        assert_eq!(patch.pixels.width() as u32, rect.cols());
        assert_eq!(patch.pixels.height() as u32, rect.rows());
        if rect.cols() > 0 && rect.rows() > 0 {
            let first = patch.pixels.get_pixel(0, 0);
            for y in 0..rect.rows() {
                for x in 0..rect.cols() {
                    assert_eq!(patch.pixels.get_pixel(x, y), first);
                }
            }
        }
    }
}

#[test]
fn created_shapes_vary() {
    macroquad::rand::srand(11);
    let first = create_shape(300, 200);
    let mut moved = false;
    let mut sized = false;
    let mut coloured = false;
    let mut below_limit = false;
    let mut above_zero = false;
    for _ in 0..200 {
        let patch = create_shape(300, 200);
        moved = moved || patch.rect.x != first.rect.x || patch.rect.y != first.rect.y;
        sized = sized || patch.rect.w != first.rect.w || patch.rect.h != first.rect.h;
        below_limit = below_limit || patch.rect.w < max_extent(300);
        above_zero = above_zero || patch.rect.w > 0;
        let both_hold_pixels = patch.rect.cols() > 0
            && patch.rect.rows() > 0
            && first.rect.cols() > 0
            && first.rect.rows() > 0;
        if both_hold_pixels {
            coloured = coloured || patch.pixels.get_pixel(0, 0) != first.pixels.get_pixel(0, 0);
        }
    }
    assert!(moved);
    assert!(sized);
    assert!(below_limit);
    assert!(above_zero);
    assert!(coloured || first.rect.cols() == 0 || first.rect.rows() == 0);
}

#[test]
fn created_shapes_on_tiny_canvases_are_degenerate() {
    macroquad::rand::srand(3);
    let mut engine = Engine::new(ImageBuffer::new(4, 4, red()));
    for _ in 0..200 {
        let patch = create_shape(4, 4);
        assert_eq!(patch.rect.cols(), 0);
        assert_eq!(patch.rect.rows(), 0);
        assert!(!engine.consider(&patch));
    }
    assert!(!engine.run_generation());
    assert_eq!(engine.generation(), 0);
    assert!(same_pixels(engine.canvas(), &ImageBuffer::new(4, 4, black())));
    let patch = create_shape(0, 0);
    assert_eq!(patch.rect, Rect::new(0, 0, 0, 0));
}

#[test]
fn generations_never_raise_the_total_distance() {
    macroquad::rand::srand(2024);
    assert_eq!(BATCH_SIZE, 1024);
    let target = pattern(40, 30);
    let mut engine = Engine::new(pattern(40, 30));
    let full = Rect::from_pixels(0, 0, 40, 30);
    let mut last_total = total(&target, engine.canvas());
    let mut last_mean = region_distance(&target, engine.canvas(), &full);
    let start = last_total;
    let mut drawn_count: u64 = 0;
    for _ in 0..6 {
        let before = engine.canvas().to_rgba();
        let drawn = engine.run_generation();
        let now_total = total(&target, engine.canvas());
        let now_mean = region_distance(&target, engine.canvas(), &full);
        assert!(now_total <= last_total);
        assert!(now_mean <= last_mean);
        if drawn {
            drawn_count += 1;
            assert!(now_total < last_total);
        } else {
            assert_eq!(engine.canvas().to_rgba(), before);
        }
        assert_eq!(engine.generation(), drawn_count);
        assert!(same_pixels(engine.target(), &target));
        last_total = now_total;
        last_mean = now_mean;
    }
    assert!(drawn_count > 0);
    assert!(last_total < start);
}
