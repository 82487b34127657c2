use evo_art::canvas::Image;
use evo_art::fitness::benford::calculate_benford;
use evo_art::fitness::contrast::{calculate_contrast, compute_luminance_contrast};
use evo_art::fitness::pixel_compare::calculate_mse;
use evo_art::fitness::{evaluate, Objective};
use evo_art::geometry::Color;

fn filled(width: u32, height: u32, c: Color) -> Image {
    let mut img = Image::new(width, height);
    for p in img.pixels.iter_mut() {
        *p = c;
    }
    img
}

fn checkerboard(size: u32) -> Image {
    let mut img = Image::new(size, size);
    for y in 0..size {
        for x in 0..size {
            if (x + y) % 2 == 0 {
                img.pixels[(y * size + x) as usize] = Color { r: 255, g: 255, b: 255, a: 255 };
            } else {
                img.pixels[(y * size + x) as usize] = Color { r: 0, g: 0, b: 0, a: 255 };
            }
        }
    }
    img
}

#[test]
fn benford_uniform_luminance_ten() {
    let img = filled(3, 2, Color { r: 10, g: 10, b: 10, a: 255 });
    // every pixel on digit 1: −100·((1−0.301)² + 0.176² + 0.125² + … + 0.051²)
    let expected_sum: i64 = 699 * 699 + 176 * 176 + 125 * 125 + 97 * 97 + 79 * 79 + 67 * 67 + 58 * 58 + 51 * 51;
    assert_eq!(calculate_benford(&img), -100 * expected_sum);
    assert_eq!(calculate_benford(&img), -56_130_600);
    let green = filled(2, 2, Color { r: 0, g: 18, b: 0, a: 255 });
    assert_eq!(calculate_benford(&green), -56_130_600);
    let as_float = -100.0 * (0.699f64.powi(2) + 0.176f64.powi(2) + 0.125f64.powi(2) + 0.097f64.powi(2)
        + 0.079f64.powi(2) + 0.067f64.powi(2) + 0.058f64.powi(2) + 0.051f64.powi(2));
    assert!((calculate_benford(&img) as f64 / 1e6 - as_float).abs() < 1e-6);
}

#[test]
fn benford_ignores_black_pixels() {
    let mut img = filled(2, 1, Color { r: 0, g: 0, b: 0, a: 255 });
    img.pixels[1] = Color { r: 200, g: 200, b: 200, a: 255 };
    // one pixel on digit 2 out of two pixels: observed 0.5 for digit 2, compared with 0.176
    let e: [i64; 8] = [301, 176, 125, 97, 79, 67, 58, 51];
    let mut s: i64 = 0;
    for (k, share) in e.iter().enumerate() {
        let observed = if k + 1 == 2 { 500 } else { 0 };
        s += (observed - share) * (observed - share);
    }
    assert_eq!(calculate_benford(&img), -100 * s);
}

#[test]
fn benford_empty_image_is_zero() {
    assert_eq!(calculate_benford(&Image::new(0, 0)), 0);
}

#[test]
fn mse_exact_values() {
    let black = filled(2, 2, Color { r: 0, g: 0, b: 0, a: 255 });
    let grey = filled(2, 2, Color { r: 10, g: 20, b: 0, a: 255 });
    // (100 + 400 + 0 + 0) / 4 per pixel = 125
    assert_eq!(calculate_mse(&black, &grey), 125_000_000);
    assert_eq!(calculate_mse(&black, &black), 0);
    assert_eq!(calculate_mse(&Image::new(0, 3), &Image::new(0, 3)), 0);
    let mut one = black.clone();
    one.pixels[3] = Color { r: 1, g: 0, b: 0, a: 255 };
    // 1 / 16 channels
    assert_eq!(calculate_mse(&black, &one), 62_500);
    // one unit in one channel of a large image still scores above zero
    let big = filled(1000, 300, Color { r: 0, g: 0, b: 0, a: 255 });
    let mut near = big.clone();
    near.pixels[7] = Color { r: 0, g: 1, b: 0, a: 255 };
    assert_eq!(calculate_mse(&big, &near), 1);
    assert_eq!(calculate_mse(&near, &big), 1);
}

#[test]
fn luminance_contrast_of_one_level() {
    let board = checkerboard(2);
    // each pixel differs from each existing neighbour by 255 luminance: 4 differences over 4 pixels
    assert_eq!(compute_luminance_contrast(&board, 0), -255_000_000);
    assert_eq!(compute_luminance_contrast(&board, 2), -63_750_000);
    assert_eq!(compute_luminance_contrast(&filled(3, 3, Color { r: 9, g: 9, b: 9, a: 9 }), 0), 0);
}

#[test]
fn contrast_looks_at_downscaled_images() {
    let board = checkerboard(8);
    let full_resolution = compute_luminance_contrast(&board, 0);
    assert_eq!(full_resolution, -446_250_000);
    let value = calculate_contrast(&board);
    assert!(value <= 0);
    assert!(value > full_resolution / 2);
    let flat = calculate_contrast(&filled(8, 8, Color { r: 40, g: 40, b: 40, a: 255 }));
    assert!(flat <= 0 && flat > -1_000_000);
}

#[test]
fn evaluate_dispatches_by_objective() {
    let target = filled(2, 2, Color { r: 0, g: 0, b: 0, a: 255 });
    let img = filled(2, 2, Color { r: 10, g: 10, b: 10, a: 255 });
    assert_eq!(evaluate(Objective::PixelCompare, &img, &target), calculate_mse(&target, &img));
    assert_eq!(evaluate(Objective::Benford, &img, &target), calculate_benford(&img));
    assert_eq!(evaluate(Objective::Contrast, &img, &target), calculate_contrast(&img));
}
