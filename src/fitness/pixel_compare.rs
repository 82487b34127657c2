//! Mean squared difference of the raw channel bytes against the target image.

use crate::canvas::{Image, MAX_PIXELS};
use crate::fitness::{score_population, Objective, FITNESS_SCALE};
use crate::geometry::Color;
use crate::vector::Environment;
use vstd::prelude::*;

verus! {

/// Largest squared difference of one pixel, over its four channels.
pub const MAX_PIXEL_SQUARES: u64 = 4 * 255 * 255;

pub open spec fn sq(v: int) -> int {
    v * v
}

/// Sum of the squared channel differences of one pixel.
pub open spec fn pixel_squares(a: Color, b: Color) -> int {
    sq(a.r - b.r) + sq(a.g - b.g) + sq(a.b - b.b) + sq(a.a - b.a)
}

/// Sum of `pixel_squares` over the first `n` pixels.
pub open spec fn squares_sum(a: Seq<Color>, b: Seq<Color>, n: int) -> int
    decreases n,
{
    if n <= 0 {
        0
    } else {
        squares_sum(a, b, n - 1) + pixel_squares(a[n - 1], b[n - 1])
    }
}

/// The mean squared channel difference of two images of `a.len()` pixels, in millionths,
/// rounded up (so that any difference scores above zero); zero for empty images.
pub open spec fn mse_value(a: Seq<Color>, b: Seq<Color>) -> int {
    if a.len() == 0 {
        0
    } else {
        (squares_sum(a, b, a.len() as int) * FITNESS_SCALE + 4 * a.len() - 1) / (4 * a.len() as int)
    }
}

/// The squared differences add up to zero exactly when the first `n` pixels agree.
pub proof fn lemma_squares_zero(a: Seq<Color>, b: Seq<Color>, n: int)
    requires
        0 <= n <= a.len(),
        n <= b.len(),
    ensures
        squares_sum(a, b, n) >= 0,
        squares_sum(a, b, n) == 0 <==> forall|i: int| 0 <= i < n ==> a[i] == b[i],
    decreases n,
{
    if n > 0 {
        lemma_squares_zero(a, b, n - 1);
        let (x, y) = (a[n - 1], b[n - 1]);
        assert(sq(x.r - y.r) >= 0 && sq(x.g - y.g) >= 0 && sq(x.b - y.b) >= 0 && sq(x.a - y.a) >= 0) by (nonlinear_arith);
        if pixel_squares(x, y) == 0 {
            assert(sq(x.r - y.r) == 0 && sq(x.g - y.g) == 0 && sq(x.b - y.b) == 0 && sq(x.a - y.a) == 0);
            assert(x.r - y.r == 0) by (nonlinear_arith)
                requires
                    sq(x.r - y.r) == 0,
            ;
            assert(x.g - y.g == 0) by (nonlinear_arith)
                requires
                    sq(x.g - y.g) == 0,
            ;
            assert(x.b - y.b == 0) by (nonlinear_arith)
                requires
                    sq(x.b - y.b) == 0,
            ;
            assert(x.a - y.a == 0) by (nonlinear_arith)
                requires
                    sq(x.a - y.a) == 0,
            ;
        }
        if forall|i: int| 0 <= i < n ==> a[i] == b[i] {
            assert(a[n - 1] == b[n - 1]);
        }
        assert(pixel_squares(x, y) >= 0);
        if squares_sum(a, b, n) == 0 {
            assert(squares_sum(a, b, n - 1) == 0);
            assert(pixel_squares(x, y) == 0);
            assert forall|i: int| 0 <= i < n implies a[i] == b[i] by {
                if i == n - 1 {
                    assert(x == y);
                }
            }
        }
        if forall|i: int| 0 <= i < n ==> a[i] == b[i] {
            assert(forall|i: int| 0 <= i < n - 1 ==> a[i] == b[i]);
            assert(x.r - y.r == 0 && x.g - y.g == 0 && x.b - y.b == 0 && x.a - y.a == 0);
            assert(sq(0) == 0) by (nonlinear_arith);
            assert(pixel_squares(x, y) == 0);
        }
    }
}

/// Pixel Compare scores two images of one size zero exactly when they are equal.
pub proof fn lemma_mse_zero_iff_equal(a: Seq<Color>, b: Seq<Color>)
    requires
        a.len() == b.len(),
    ensures
        mse_value(a, b) >= 0,
        mse_value(a, b) == 0 <==> a == b,
{
    lemma_squares_zero(a, b, a.len() as int);
    if a.len() > 0 {
        let s = squares_sum(a, b, a.len() as int);
        let d = 4 * a.len() as int;
        assert(s > 0 ==> (s * FITNESS_SCALE + d - 1) / d >= 1) by (nonlinear_arith)
            requires
                d > 0,
                s >= 0,
        ;
        assert(s == 0 ==> (s * FITNESS_SCALE + d - 1) / d == 0) by (nonlinear_arith)
            requires
                d > 0,
        ;
        assert((s * FITNESS_SCALE + d - 1) / d >= 0) by (nonlinear_arith)
            requires
                d > 0,
                s >= 0,
        ;
    }
    if forall|i: int| 0 <= i < a.len() ==> a[i] == b[i] {
        assert(a =~= b);
    }
}

fn channel_square(a: u8, b: u8) -> (r: u64)
    ensures
        r == sq(a - b),
        r <= 255 * 255,
{
    let d: u64 = if a >= b { (a - b) as u64 } else { (b - a) as u64 };
    assert(d * d <= 255 * 255) by (nonlinear_arith)
        requires
            d <= 255,
    ;
    assert(d * d == sq(a - b)) by (nonlinear_arith)
        requires
            d == a - b || d == b - a,
    ;
    d * d
}

/// Mean squared difference of the channel bytes of two images of the same size (see
/// `mse_value`).
pub fn calculate_mse(img1: &Image, img2: &Image) -> (r: i64)
    requires
        img1.wf(),
        img2.wf(),
        img1.width == img2.width,
        img1.height == img2.height,
    ensures
        r == mse_value(img1.pixels@, img2.pixels@),
        r >= 0,
        r == 0 <==> img1.pixels@ == img2.pixels@,
{
    proof {
        lemma_mse_zero_iff_equal(img1.pixels@, img2.pixels@);
    }
    let n = img1.pixels.len();
    let mut sum: u64 = 0;
    let mut i: usize = 0;
    while i < n
        invariant
            n == img1.pixels@.len(),
            n == img2.pixels@.len(),
            n <= MAX_PIXELS,
            i <= n,
            sum == squares_sum(img1.pixels@, img2.pixels@, i as int),
            sum <= MAX_PIXEL_SQUARES * i,
        decreases n - i,
    {
        let a = img1.pixels[i];
        let b = img2.pixels[i];
        let s = channel_square(a.r, b.r) + channel_square(a.g, b.g) + channel_square(a.b, b.b) + channel_square(a.a, b.a);
        assert(MAX_PIXEL_SQUARES * i + MAX_PIXEL_SQUARES <= MAX_PIXEL_SQUARES * MAX_PIXELS) by (nonlinear_arith)
            requires
                i < n,
                n <= MAX_PIXELS,
        ;
        assert(sum + s <= MAX_PIXEL_SQUARES * (i + 1)) by (nonlinear_arith)
            requires
                sum <= MAX_PIXEL_SQUARES * i,
                s <= MAX_PIXEL_SQUARES,
        ;
        sum = sum + s;
        i = i + 1;
    }
    if n == 0 {
        return 0;
    }
    assert(MAX_PIXEL_SQUARES * n <= MAX_PIXEL_SQUARES * MAX_PIXELS) by (nonlinear_arith)
        requires
            n <= MAX_PIXELS,
    ;
    let den = 4 * n as u128;
    let num = sum as u128 * FITNESS_SCALE as u128 + den - 1;
    let q = num / den;
    assert(q <= MAX_PIXEL_SQUARES * FITNESS_SCALE / 4 + 1) by (nonlinear_arith)
        requires
            sum <= MAX_PIXEL_SQUARES * n,
            num == sum * FITNESS_SCALE + den - 1,
            den == 4 * n,
            n > 0,
            q as int == num as int / (den as int),
    ;
    q as i64
}

/// Scores every candidate of the population by `calculate_mse` against the target and
/// stores the score at objective `idx`.
pub fn calculate_fitness(env: &mut Environment, idx: usize)
    requires
        old(env).ready(),
        idx < old(env).num_objectives,
    ensures
        final(env).scored(*old(env), idx, Objective::PixelCompare),
{
    score_population(env, idx, Objective::PixelCompare);
}

} // verus!
