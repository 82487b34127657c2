//! Distance of the leading digits of the luminance values from Benford's law.

use crate::canvas::{Image, MAX_PIXELS};
use crate::fitness::{score_population, Objective};
use crate::geometry::Color;
use crate::vector::Environment;
use vstd::prelude::*;

verus! {

/// Number of leading digits compared with the law: `1..=8` (digit 9 is left out).
pub const COMPARED_DIGITS: usize = 8;

/// The 8-bit luminance `0.299 R + 0.587 G + 0.114 B`, truncated.
pub open spec fn luminance8(c: Color) -> int {
    (299 * c.r + 587 * c.g + 114 * c.b) / 1000
}

/// The first decimal digit of a value below 1000.
pub open spec fn leading_digit(v: int) -> int {
    if v >= 100 {
        v / 100
    } else if v >= 10 {
        v / 10
    } else {
        v
    }
}

/// The law's share of digit `d + 1`, in thousandths.
pub open spec fn benford_share(d: int) -> int {
    if d == 0 {
        301
    } else if d == 1 {
        176
    } else if d == 2 {
        125
    } else if d == 3 {
        97
    } else if d == 4 {
        79
    } else if d == 5 {
        67
    } else if d == 6 {
        58
    } else if d == 7 {
        51
    } else if d == 8 {
        46
    } else {
        0
    }
}

/// How many of the first `n` pixels have a nonzero luminance whose first digit is `d`.
pub open spec fn digit_count(pixels: Seq<Color>, d: int, n: int) -> int
    decreases n,
{
    if n <= 0 {
        0
    } else {
        digit_count(pixels, d, n - 1) + if luminance8(pixels[n - 1]) != 0 && leading_digit(luminance8(pixels[n - 1])) == d {
            1int
        } else {
            0int
        }
    }
}

/// `(1000·count_d − share_(d−1)·total)²` summed over the digits `1 <= d <= k`: the squared
/// differences between the observed frequency of digit `d` and the law's share for it,
/// scaled by `(1000·total)²`.
pub open spec fn deviation_sum(pixels: Seq<Color>, k: int) -> int
    decreases k,
{
    if k <= 0 {
        0
    } else {
        let e = 1000 * digit_count(pixels, k, pixels.len() as int) - benford_share(k - 1) * pixels.len();
        deviation_sum(pixels, k - 1) + e * e
    }
}

/// `−100` times the squared distance of the observed frequencies of the digits `1..=8` from
/// the law, in millionths and truncated toward zero; zero for an empty image.
pub open spec fn benford_value(pixels: Seq<Color>) -> int {
    let t = pixels.len() as int;
    if t == 0 {
        0
    } else {
        -((100 * deviation_sum(pixels, COMPARED_DIGITS as int)) / (t * t))
    }
}

fn share_of(d: usize) -> (r: u64)
    ensures
        r == benford_share(d as int),
        r <= 1000,
{
    if d == 0 {
        301
    } else if d == 1 {
        176
    } else if d == 2 {
        125
    } else if d == 3 {
        97
    } else if d == 4 {
        79
    } else if d == 5 {
        67
    } else if d == 6 {
        58
    } else if d == 7 {
        51
    } else if d == 8 {
        46
    } else {
        0
    }
}

fn pixel_luminance(c: Color) -> (r: u32)
    ensures
        r == luminance8(c),
        r <= 255,
{
    ((299 * c.r as u32 + 587 * c.g as u32 + 114 * c.b as u32) / 1000)
}

/// Counts the first digits of the nonzero luminance values, one bucket per digit `0..10`.
fn digit_counts(pixels: &Vec<Color>) -> (counts: Vec<u64>)
    requires
        pixels@.len() <= MAX_PIXELS,
    ensures
        counts@.len() == 10,
        forall|d: int| 0 <= d < 10 ==> #[trigger] counts@[d] == digit_count(pixels@, d, pixels@.len() as int),
{
    let mut counts: Vec<u64> = Vec::new();
    let mut d: usize = 0;
    while d < 10
        invariant
            d <= 10,
            counts@.len() == d,
            forall|j: int| 0 <= j < d ==> #[trigger] counts@[j] == 0,
        decreases 10 - d,
    {
        counts.push(0);
        d = d + 1;
    }
    let mut i: usize = 0;
    while i < pixels.len()
        invariant
            pixels@.len() <= MAX_PIXELS,
            i <= pixels@.len(),
            counts@.len() == 10,
            forall|j: int| 0 <= j < 10 ==> #[trigger] counts@[j] == digit_count(pixels@, j, i as int),
            forall|j: int| 0 <= j < 10 ==> #[trigger] counts@[j] <= i,
        decreases pixels@.len() - i,
    {
        let v = pixel_luminance(pixels[i]);
        if v != 0 {
            let digit = if v >= 100 { v / 100 } else if v >= 10 { v / 10 } else { v };
            let slot = digit as usize;
            counts.set(slot, counts[slot] + 1);
        }
        i = i + 1;
    }
    counts
}

/// Benford fitness of an image (see `benford_value`).
pub fn calculate_benford(image: &Image) -> (r: i64)
    requires
        image.wf(),
    ensures
        r == benford_value(image.pixels@),
{
    let counts = digit_counts(&image.pixels);
    let t = image.pixels.len() as u64;
    if t == 0 {
        return 0;
    }
    let mut sum: u128 = 0;
    let mut d: usize = 0;
    while d < COMPARED_DIGITS
        invariant
            counts@.len() == 10,
            forall|j: int| 0 <= j < 10 ==> #[trigger] counts@[j] == digit_count(image.pixels@, j, t as int),
            t == image.pixels@.len(),
            0 < t <= MAX_PIXELS,
            d <= COMPARED_DIGITS,
            sum == deviation_sum(image.pixels@, d as int),
            sum <= d * (1000 * t) * (1000 * t),
        decreases COMPARED_DIGITS - d,
    {
        let c = counts[d + 1];
        proof {
            lemma_digit_count_bound(image.pixels@, d + 1, t as int);
        }
        let observed = 1000 * c as u128;
        let expected = share_of(d) as u128 * t as u128;
        let e = if observed >= expected { observed - expected } else { expected - observed };
        proof {
            lemma_deviation_step(observed as int, expected as int, e as int, c as int, t as int, d as int, sum as int);
            let ie = 1000 * digit_count(image.pixels@, d + 1, t as int) - benford_share(d as int) * t;
            assert(e * e == ie * ie) by (nonlinear_arith)
                requires
                    e == ie || e == -ie,
            ;
            assert(e * e <= 9 * (1000 * MAX_PIXELS) * (1000 * MAX_PIXELS));
            assert(9 * (1000 * MAX_PIXELS) * (1000 * MAX_PIXELS) <= u128::MAX) by (nonlinear_arith);
        }
        sum = sum + e * e;
        d = d + 1;
    }
    assert(sum <= 9 * (1000 * t) * (1000 * t)) by (nonlinear_arith)
        requires
            sum <= d * (1000 * t) * (1000 * t),
            d <= 9,
    ;
    assert(t * t <= MAX_PIXELS * MAX_PIXELS) by (nonlinear_arith)
        requires
            t <= MAX_PIXELS,
    ;
    assert(100 * sum <= 100 * 9 * (1000 * MAX_PIXELS) * (1000 * MAX_PIXELS)) by (nonlinear_arith)
        requires
            sum <= 9 * (1000 * t) * (1000 * t),
            t <= MAX_PIXELS,
    ;
    assert(100 * 9 * (1000 * MAX_PIXELS) * (1000 * MAX_PIXELS) <= u128::MAX) by (nonlinear_arith);
    let tt = t as u128 * t as u128;
    assert(tt > 0) by (nonlinear_arith)
        requires
            tt == t * t,
            t > 0,
    ;
    let q = (100 * sum) / tt;
    assert(q <= 900_000_000) by (nonlinear_arith)
        requires
            sum <= 9 * (1000 * t) * (1000 * t),
            tt == t * t,
            t > 0,
            q as int == (100 * sum) as int / (tt as int),
    ;
    -(q as i64)
}

proof fn lemma_deviation_step(observed: int, expected: int, e: int, c: int, t: int, d: int, sum: int)
    requires
        observed == 1000 * c,
        0 <= c <= t,
        0 <= expected <= 1000 * t,
        e == observed - expected || e == expected - observed,
        e >= 0,
        0 <= d < 9,
        0 < t <= MAX_PIXELS,
        0 <= sum <= d * (1000 * t) * (1000 * t),
    ensures
        e <= 1000 * t,
        e * e <= 9 * (1000 * MAX_PIXELS) * (1000 * MAX_PIXELS),
        sum + e * e <= (d + 1) * (1000 * t) * (1000 * t),
        sum + e * e <= 9 * (1000 * MAX_PIXELS) * (1000 * MAX_PIXELS),
{
    assert(e * e <= (1000 * t) * (1000 * t)) by (nonlinear_arith)
        requires
            0 <= e <= 1000 * t,
    ;
    assert((d + 1) * (1000 * t) * (1000 * t) == d * (1000 * t) * (1000 * t) + (1000 * t) * (1000 * t)) by (nonlinear_arith);
    assert((d + 1) * (1000 * t) * (1000 * t) <= 9 * (1000 * MAX_PIXELS) * (1000 * MAX_PIXELS)) by (nonlinear_arith)
        requires
            d + 1 <= 9,
            0 < t <= MAX_PIXELS,
    ;
}

proof fn lemma_digit_count_bound(pixels: Seq<Color>, d: int, n: int)
    requires
        0 <= n <= pixels.len(),
    ensures
        0 <= digit_count(pixels, d, n) <= n,
    decreases n,
{
    if n > 0 {
        lemma_digit_count_bound(pixels, d, n - 1);
    }
}

/// Scores every candidate of the population by `calculate_benford` and stores the score at
/// objective `idx`.
pub fn calculate_fitness(env: &mut Environment, idx: usize)
    requires
        old(env).ready(),
        idx < old(env).num_objectives,
    ensures
        final(env).scored(*old(env), idx, Objective::Benford),
{
    score_population(env, idx, Objective::Benford);
}

} // verus!
