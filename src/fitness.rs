//! The objectives a candidate is scored by. Every score is a fixed-point number in
//! millionths, and lower is better.

pub mod benford;
pub mod contrast;
pub mod pixel_compare;

use crate::canvas::Image;
use crate::draw::{draw_concur, render};
use crate::geometry::{Color, Triangle};
use crate::vector::{Environment, Vector};
use rayon::iter::{IntoParallelRefIterator, ParallelIterator};
use vstd::prelude::*;

verus! {

/// Fitness values are counted in millionths.
pub const FITNESS_SCALE: u64 = 1_000_000;

/// The objectives on offer.
#[derive(Clone, Copy, Debug, PartialEq, Eq, Structural)]
pub enum Objective {
    /// Mean squared channel difference from the target image.
    PixelCompare,
    /// Negated multi-resolution local contrast.
    Contrast,
    /// Negated distance of the luminance digits from Benford's law.
    Benford,
}

/// The score of a `width` × `height` image under an objective, against the target's pixels.
pub open spec fn objective_value(kind: Objective, pixels: Seq<Color>, width: u32, height: u32, target: Seq<Color>) -> int {
    match kind {
        Objective::PixelCompare => pixel_compare::mse_value(target, pixels),
        Objective::Contrast => contrast::contrast_value(pixels, width, height),
        Objective::Benford => benford::benford_value(pixels),
    }
}

/// The score of the candidate with these triangles, rendered at the target's size.
pub open spec fn candidate_score(kind: Objective, triangles: Seq<Triangle>, target: Image) -> int {
    objective_value(kind, render(triangles, target.width as int, target.height as int), target.width, target.height, target.pixels@)
}

/// Scores an image of the target's size under an objective.
pub fn evaluate(kind: Objective, image: &Image, target: &Image) -> (r: i64)
    requires
        image.wf(),
        target.wf(),
        image.width == target.width,
        image.height == target.height,
    ensures
        r == objective_value(kind, image.pixels@, image.width, image.height, target.pixels@),
{
    match kind {
        Objective::PixelCompare => pixel_compare::calculate_mse(target, image),
        Objective::Contrast => contrast::calculate_contrast(image),
        Objective::Benford => benford::calculate_benford(image),
    }
}

/// Relies on rayon's `par_iter().map(..).collect()`: each image scored by `evaluate`, the
/// scores collected in the images' order.
#[verifier::external_body]
fn score_in_parallel(images: &Vec<Image>, target: &Image, kind: Objective) -> (r: Vec<i64>)
    requires
        target.wf(),
        forall|i: int|
            0 <= i < images@.len() ==> (#[trigger] images@[i]).wf() && images@[i].width == target.width
                && images@[i].height == target.height,
    ensures
        r@.len() == images@.len(),
        forall|i: int|
            0 <= i < r@.len() ==> #[trigger] r@[i] == objective_value(
                kind,
                images@[i].pixels@,
                images@[i].width,
                images@[i].height,
                target.pixels@,
            ),
{
    images.par_iter().map(|image| evaluate(kind, image, target)).collect()
}

/// Renders the whole population and stores each candidate's score under `kind` at
/// objective `idx`.
pub fn score_population(env: &mut Environment, idx: usize, kind: Objective)
    requires
        old(env).ready(),
        idx < old(env).num_objectives,
    ensures
        final(env).scored(*old(env), idx, kind),
{
    let images = draw_concur(&env.pool, env.target_width, env.target_height, env.num_threads);
    let scores = score_in_parallel(&images, &env.target_img, kind);
    let n = env.pool.len();
    let ghost start = *env;
    let mut i: usize = 0;
    while i < n
        invariant
            n == env.pool@.len(),
            n == scores@.len(),
            n == images@.len(),
            i <= n,
            idx < env.num_objectives,
            env.same_settings(start),
            start.ready(),
            start.pool@.len() == n,
            forall|k: int|
                0 <= k < n ==> scores@[k] == candidate_score(kind, #[trigger] start.pool@[k].triangles@, start.target_img),
            forall|k: int| 0 <= k < n ==> (#[trigger] env.pool@[k]).triangles@ == start.pool@[k].triangles@,
            forall|k: int|
                0 <= k < n ==> (#[trigger] env.pool@[k]).fitness@ == if k < i {
                    start.pool@[k].fitness@.update(idx as int, scores@[k])
                } else {
                    start.pool@[k].fitness@
                },
        decreases n - i,
    {
        let mut candidate = Vector::from_triangles(Vec::new(), 0);
        env.pool.set_and_swap(i, &mut candidate);
        assert(candidate.fitness@ == start.pool@[i as int].fitness@);
        assert(start.pool@[i as int].shaped(
            start.num_triangles as nat,
            start.num_objectives as nat,
            start.target_width as int,
            start.target_height as int,
        ));
        candidate.fitness.set(idx, scores[i]);
        env.pool.set_and_swap(i, &mut candidate);
        i = i + 1;
    }
    proof {
        assert forall|k: int| 0 <= k < n implies (#[trigger] env.pool@[k]).shaped(
            env.num_triangles as nat,
            env.num_objectives as nat,
            env.target_width as int,
            env.target_height as int,
        ) by {
            assert(start.pool@[k].shaped(
                start.num_triangles as nat,
                start.num_objectives as nat,
                start.target_width as int,
                start.target_height as int,
            ));
        }
    }
}

} // verus!
