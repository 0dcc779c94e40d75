use mosaic::arith::isqrt;
use mosaic::color::{overlay_pixels, pixel_distance, Pixel, DISTANCE_ONE};

const BLACK: Pixel = Pixel { r: 0, g: 0, b: 0, a: 255 };
const WHITE: Pixel = Pixel { r: 255, g: 255, b: 255, a: 255 };
const RED: Pixel = Pixel { r: 255, g: 0, b: 0, a: 255 };

#[test]
fn isqrt_of_small_numbers() {
    assert_eq!(isqrt(0), 0);
    assert_eq!(isqrt(1), 1);
    assert_eq!(isqrt(2), 1);
    assert_eq!(isqrt(3), 1);
    assert_eq!(isqrt(4), 2);
    assert_eq!(isqrt(8), 2);
    assert_eq!(isqrt(9), 3);
    assert_eq!(isqrt(99), 9);
    assert_eq!(isqrt(100), 10);
}

#[test]
fn isqrt_of_large_numbers() {
    assert_eq!(isqrt(u64::MAX), 4294967295);
    assert_eq!(isqrt(4294967295 * 4294967295), 4294967295);
    assert_eq!(isqrt(4294967295 * 4294967295 - 1), 4294967294);
    assert_eq!(isqrt(195075 * 195075), 195075);
}

#[test]
fn isqrt_brackets_its_argument() {
    let mut n: u64 = 0;
    while n < 5000 {
        let r = isqrt(n);
        assert!(r * r <= n);
        assert!(n < (r + 1) * (r + 1));
        n += 1;
    }
}

#[test]
fn distance_one_is_the_squared_diagonal() {
    assert_eq!(DISTANCE_ONE, 3 * 255 * 255);
}

#[test]
fn distance_of_a_pixel_to_itself_is_zero() {
    assert_eq!(pixel_distance(RED, RED), 0);
    assert_eq!(pixel_distance(BLACK, BLACK), 0);
    assert_eq!(pixel_distance(Pixel::new(12, 200, 99, 7), Pixel::new(12, 200, 99, 7)), 0);
}

#[test]
fn distance_ignores_alpha() {
    assert_eq!(pixel_distance(Pixel::new(10, 20, 30, 0), Pixel::new(10, 20, 30, 255)), 0);
    assert_eq!(
        pixel_distance(Pixel::new(10, 20, 30, 0), Pixel::new(40, 20, 30, 17)),
        pixel_distance(Pixel::new(10, 20, 30, 255), Pixel::new(40, 20, 30, 255))
    );
}

#[test]
fn distance_across_the_cube_is_one() {
    assert_eq!(pixel_distance(BLACK, WHITE), DISTANCE_ONE);
    assert_eq!(pixel_distance(WHITE, BLACK), DISTANCE_ONE);
    assert_eq!(
        pixel_distance(Pixel::new(255, 0, 255, 255), Pixel::new(0, 255, 0, 255)),
        DISTANCE_ONE
    );
}

#[test]
fn distance_along_one_axis() {
    // sqrt(1 / 3) of the full distance, rounded down.
    assert_eq!(pixel_distance(RED, BLACK), 112626);
    // sqrt(2 / 3) of the full distance, rounded down.
    assert_eq!(pixel_distance(Pixel::new(255, 255, 0, 255), BLACK), 159278);
}

#[test]
fn distance_of_neighbouring_colours_is_not_zero() {
    assert_eq!(pixel_distance(Pixel::new(0, 0, 1, 255), BLACK), 441);
    assert_eq!(pixel_distance(Pixel::new(7, 8, 9, 255), Pixel::new(7, 9, 9, 255)), 441);
}

#[test]
fn distance_is_symmetric_zero_only_for_equal_colours_and_bounded() {
    let samples = [0u8, 1, 2, 63, 127, 128, 200, 254, 255];
    for &r1 in samples.iter() {
        for &g1 in samples.iter() {
            for &r2 in samples.iter() {
                for &b2 in samples.iter() {
                    let a = Pixel::new(r1, g1, 77, 255);
                    let b = Pixel::new(r2, 128, b2, 3);
                    let d = pixel_distance(a, b);
                    assert_eq!(d, pixel_distance(b, a));
                    assert!(d <= DISTANCE_ONE);
                    assert_eq!(d == 0, a.r == b.r && a.g == b.g && a.b == b.b);
                }
            }
        }
    }
}

#[test]
fn overlay_of_a_transparent_pixel_keeps_the_base() {
    let base = Pixel::new(10, 120, 250, 200);
    let over = overlay_pixels(base, Pixel::new(255, 0, 33, 0));
    assert_eq!(over, base);
    let faint = Pixel::new(1, 2, 3, 0);
    assert_eq!(overlay_pixels(faint, Pixel::new(9, 9, 9, 0)), faint);
}

#[test]
fn overlay_of_an_opaque_pixel_takes_its_colour() {
    let applied = Pixel::new(255, 0, 33, 255);
    let over = overlay_pixels(Pixel::new(10, 120, 250, 200), applied);
    assert_eq!(over, Pixel::new(255, 0, 33, 255));
    let over = overlay_pixels(Pixel::new(10, 120, 250, 0), applied);
    assert_eq!(over, Pixel::new(255, 0, 33, 255));
}

#[test]
fn overlay_mixes_by_alpha() {
    // (100 * 127 + 200 * 128) / 255 = 150.19..
    let over = overlay_pixels(Pixel::new(100, 0, 255, 10), Pixel::new(200, 255, 0, 128));
    assert_eq!(over.r, 150);
    // (0 * 127 + 255 * 128) / 255 = 128
    assert_eq!(over.g, 128);
    // (255 * 127 + 0 * 128) / 255 = 127
    assert_eq!(over.b, 127);
    assert_eq!(over.a, 138);
}

#[test]
fn overlay_alpha_stops_at_one() {
    assert_eq!(overlay_pixels(Pixel::new(0, 0, 0, 200), Pixel::new(0, 0, 0, 100)).a, 255);
    assert_eq!(overlay_pixels(Pixel::new(0, 0, 0, 155), Pixel::new(0, 0, 0, 100)).a, 255);
    assert_eq!(overlay_pixels(Pixel::new(0, 0, 0, 154), Pixel::new(0, 0, 0, 100)).a, 254);
    assert_eq!(overlay_pixels(Pixel::new(0, 0, 0, 255), Pixel::new(0, 0, 0, 255)).a, 255);
}

#[test]
fn overlay_stays_between_base_and_applied() {
    let samples = [0u8, 1, 50, 127, 128, 254, 255];
    for &base in samples.iter() {
        for &applied in samples.iter() {
            for &alpha in samples.iter() {
                let over = overlay_pixels(
                    Pixel::new(base, base, base, 255),
                    Pixel::new(applied, applied, applied, alpha),
                );
                assert!(over.r >= base.min(applied));
                assert!(over.r <= base.max(applied));
                assert_eq!(over.r, over.g);
                assert_eq!(over.g, over.b);
            }
        }
    }
}
