//! Multi-resolution local luminance contrast.

use crate::canvas::{Image, MAX_PIXELS};
use crate::fitness::{score_population, Objective};
use crate::geometry::Color;
use crate::vector::Environment;
use vstd::prelude::*;

verus! {

/// Number of halvings the measure looks at.
pub const LEVELS: u32 = 5;

/// Largest difference of two luminance values in thousandths.
pub const MAX_LUMINANCE_STEP: u64 = 255_000;

/// The pixels of a `width` × `height` image scaled to `new_width` × `new_height` by
/// `image::imageops::resize` with the triangle filter.
pub uninterp spec fn resized(pixels: Seq<Color>, width: u32, height: u32, new_width: u32, new_height: u32) -> Seq<Color>;

/// Relies on `image::imageops::resize` with `FilterType::Triangle`: an image of exactly
/// `new_width` × `new_height` pixels, a function of the source pixels and the sizes alone.
#[verifier::external_body]
fn downscale(img: &Image, new_width: u32, new_height: u32) -> (r: Image)
    requires
        img.wf(),
        new_width <= img.width,
        new_height <= img.height,
    ensures
        r.wf(),
        r.width == new_width,
        r.height == new_height,
        r.pixels@ == resized(img.pixels@, img.width, img.height, new_width, new_height),
{
    let raw: Vec<u8> = img.pixels.iter().flat_map(|c| [c.r, c.g, c.b, c.a]).collect();
    let source = image::RgbaImage::from_raw(img.width, img.height, raw).unwrap();
    let out = image::imageops::resize(&source, new_width, new_height, image::imageops::FilterType::Triangle);
    let pixels = out.pixels().map(|p| Color { r: p.0[0], g: p.0[1], b: p.0[2], a: p.0[3] }).collect();
    Image { width: new_width, height: new_height, pixels }
}

/// Luminance `0.299 R + 0.587 G + 0.114 B` in thousandths (exact).
pub open spec fn luminance_milli(c: Color) -> int {
    299 * c.r + 587 * c.g + 114 * c.b
}

pub open spec fn abs_diff(a: int, b: int) -> int {
    if a >= b { a - b } else { b - a }
}

/// Contrast of pixel `j` with its left neighbour and its upper one, each counted only where
/// that neighbour exists.
pub open spec fn neighbour_contrast(pixels: Seq<Color>, width: int, j: int) -> int {
    (if j % width > 0 {
        abs_diff(luminance_milli(pixels[j]), luminance_milli(pixels[j - 1]))
    } else {
        0
    }) + (if j >= width {
        abs_diff(luminance_milli(pixels[j]), luminance_milli(pixels[j - width]))
    } else {
        0
    })
}

/// `neighbour_contrast` summed over the first `n` pixels.
pub open spec fn contrast_sum(pixels: Seq<Color>, width: int, n: int) -> int
    decreases n,
{
    if n <= 0 {
        0
    } else {
        contrast_sum(pixels, width, n - 1) + neighbour_contrast(pixels, width, n - 1)
    }
}

/// The negated mean neighbour contrast of an image, weighted by `1 / 2^level`, in millionths
/// of luminance and truncated toward zero; zero for an empty image.
pub open spec fn level_value(pixels: Seq<Color>, width: int, level: nat) -> int {
    if pixels.len() == 0 {
        0
    } else {
        -((contrast_sum(pixels, width, pixels.len() as int) * 1000) / (pixels.len() * halving_weight(level)))
    }
}

/// `2^level`: the divisor of the contrast at the given level.
pub open spec fn halving_weight(level: nat) -> int
    decreases level,
{
    if level == 0 {
        1
    } else {
        2 * halving_weight((level - 1) as nat)
    }
}

/// From `level` on: halve the image, add the halved image's `level_value`, go on with it.
pub open spec fn contrast_from(pixels: Seq<Color>, width: u32, height: u32, level: nat) -> int
    decreases LEVELS - level,
{
    if level >= LEVELS {
        0
    } else {
        let next = resized(pixels, width, height, width / 2, height / 2);
        level_value(next, (width / 2) as int, level) + contrast_from(next, width / 2, height / 2, level + 1)
    }
}

/// The contrast measure of an image: the weighted `level_value` of each of five
/// successive halvings.
pub open spec fn contrast_value(pixels: Seq<Color>, width: u32, height: u32) -> int {
    contrast_from(pixels, width, height, 0)
}

fn luminance_of(c: Color) -> (r: u64)
    ensures
        r == luminance_milli(c),
        r <= MAX_LUMINANCE_STEP,
{
    299 * c.r as u64 + 587 * c.g as u64 + 114 * c.b as u64
}

fn luminance_step(a: Color, b: Color) -> (r: u64)
    ensures
        r == abs_diff(luminance_milli(a), luminance_milli(b)),
        r <= MAX_LUMINANCE_STEP,
{
    let la = luminance_of(a);
    let lb = luminance_of(b);
    if la >= lb { la - lb } else { lb - la }
}

/// The negated mean neighbour contrast of the image at the given level (see
/// `level_value`).
pub fn compute_luminance_contrast(image: &Image, level: u32) -> (r: i64)
    requires
        image.wf(),
        level < LEVELS,
    ensures
        r == level_value(image.pixels@, image.width as int, level as nat),
        -(2 * MAX_LUMINANCE_STEP * 1000) <= r <= 0,
{
    let n = image.pixels.len();
    if n == 0 {
        return 0;
    }
    let w = image.width as usize;
    assert(w > 0) by (nonlinear_arith)
        requires
            n == w * image.height,
            n > 0,
            w >= 0,
    ;
    let mut sum: u64 = 0;
    let mut j: usize = 0;
    while j < n
        invariant
            n == image.pixels@.len(),
            n <= MAX_PIXELS,
            w == image.width,
            w > 0,
            j <= n,
            sum == contrast_sum(image.pixels@, w as int, j as int),
            sum <= 2 * MAX_LUMINANCE_STEP * j,
        decreases n - j,
    {
        let mut step: u64 = 0;
        if j % w > 0 {
            assert(j > 0) by {
                if j == 0 {
                    assert(0usize % w == 0);
                }
            }
            step = luminance_step(image.pixels[j], image.pixels[j - 1]);
        }
        if j >= w {
            step = step + luminance_step(image.pixels[j], image.pixels[j - w]);
        }
        assert(2 * MAX_LUMINANCE_STEP * j + 2 * MAX_LUMINANCE_STEP <= 2 * MAX_LUMINANCE_STEP * MAX_PIXELS) by (nonlinear_arith)
            requires
                j < n,
                n <= MAX_PIXELS,
        ;
        assert(sum + step <= 2 * MAX_LUMINANCE_STEP * (j + 1)) by (nonlinear_arith)
            requires
                sum <= 2 * MAX_LUMINANCE_STEP * j,
                step <= 2 * MAX_LUMINANCE_STEP,
        ;
        sum = sum + step;
        j = j + 1;
    }
    let mut weight: u64 = 1;
    let mut k: u32 = 0;
    while k < level
        invariant
            k <= level,
            level < LEVELS,
            weight == halving_weight(k as nat),
            k == 0 ==> weight == 1,
            k == 1 ==> weight == 2,
            k == 2 ==> weight == 4,
            k == 3 ==> weight == 8,
            k == 4 ==> weight == 16,
        decreases level - k,
    {
        weight = weight * 2;
        k = k + 1;
    }
    assert(2 * MAX_LUMINANCE_STEP * n <= 2 * MAX_LUMINANCE_STEP * MAX_PIXELS) by (nonlinear_arith)
        requires
            n <= MAX_PIXELS,
    ;
    let num = sum as u128 * 1000;
    assert(n * weight <= MAX_PIXELS * 16 && n * weight > 0) by (nonlinear_arith)
        requires
            n <= MAX_PIXELS,
            1 <= weight <= 16,
            n > 0,
    ;
    let den = n as u128 * weight as u128;
    let q = num / den;
    assert(q <= 2 * MAX_LUMINANCE_STEP * 1000) by (nonlinear_arith)
        requires
            sum <= 2 * MAX_LUMINANCE_STEP * n,
            num == sum * 1000,
            den == n * weight,
            weight >= 1,
            n > 0,
            q as int == num as int / (den as int),
    ;
    -(q as i64)
}

/// Contrast fitness of an image (see `contrast_value`).
pub fn calculate_contrast(image: &Image) -> (r: i64)
    requires
        image.wf(),
    ensures
        r == contrast_value(image.pixels@, image.width, image.height),
{
    let mut current = downscale(image, image.width / 2, image.height / 2);
    let mut total: i64 = compute_luminance_contrast(&current, 0);
    let mut level: u32 = 1;
    while level < LEVELS
        invariant
            current.wf(),
            1 <= level <= LEVELS,
            contrast_value(image.pixels@, image.width, image.height) == total + contrast_from(current.pixels@, current.width, current.height, level as nat),
            -(level * 2 * MAX_LUMINANCE_STEP * 1000) <= total <= 0,
        decreases LEVELS - level,
    {
        let next = downscale(&current, current.width / 2, current.height / 2);
        let value = compute_luminance_contrast(&next, level);
        total = total + value;
        current = next;
        level = level + 1;
    }
    total
}

/// Scores every candidate of the population by `calculate_contrast` and stores the score at
/// objective `idx`.
pub fn calculate_fitness(env: &mut Environment, idx: usize)
    requires
        old(env).ready(),
        idx < old(env).num_objectives,
    ensures
        final(env).scored(*old(env), idx, Objective::Contrast),
{
    score_population(env, idx, Objective::Contrast);
}

} // verus!
