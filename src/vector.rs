//! Candidates (triangle lists with a fitness vector) and the optimizer that evolves them.

use crate::canvas::Image;
use crate::fitness::{benford, candidate_score, contrast, pixel_compare, Objective};
use crate::crowding::{calculate_crowding_distance, drawn_from, holds_candidate, permutes, same_candidate};
use crate::pareto::{in_front, is_front, non_dominated_sort, placed_before, remaining, total_len, undominated, undominated_among, fitness_less, lemma_lex_order, lemma_lex_total, lex_less, lex_less_from, uniform};
use crate::geometry::{distinct_vertices, mutant_triangle, triangle_in_bounds, Scale, Triangle};
use crate::random::{random_below, random_ratio};
use crate::sorting::sorted_order;
use vstd::pervasive::VecAdditionalExecFns;
use vstd::prelude::*;

verus! {

/// Denominator of the crossover probability: a probability is a count of millionths.
pub const PROBABILITY_SCALE: u32 = 1_000_000;

/// One candidate: triangles drawn in order, one fitness value per objective (lower is
/// better), and the scratch rank and crowding distance of environmental selection.
#[derive(Debug)]
pub struct Vector {
    pub triangles: Vec<Triangle>,
    pub fitness: Vec<i64>,
    pub rank: usize,
    pub crowding_distance: u64,
}

pub open spec fn zeros(n: nat) -> Seq<i64> {
    Seq::new(n, |i: int| 0i64)
}

/// Every triangle lies in a `width` × `height` image with its alpha in range.
pub open spec fn triangles_in_bounds(ts: Seq<Triangle>, width: int, height: int) -> bool {
    forall|i: int| 0 <= i < ts.len() ==> triangle_in_bounds(#[trigger] ts[i], width, height)
}

impl Vector {
    /// A candidate of the given shape whose triangles all lie in the image.
    pub open spec fn shaped(&self, num_triangles: nat, num_objectives: nat, width: int, height: int) -> bool {
        &&& self.triangles@.len() == num_triangles
        &&& self.fitness@.len() == num_objectives
        &&& triangles_in_bounds(self.triangles@, width, height)
    }

    /// A fresh candidate with the given triangles: fitness all zero, rank and distance zero.
    pub fn from_triangles(triangles: Vec<Triangle>, num_objectives: usize) -> (v: Vector)
        ensures
            v.triangles@ == triangles@,
            v.fitness@ == zeros(num_objectives as nat),
            v.rank == 0,
            v.crowding_distance == 0,
    {
        let mut fitness: Vec<i64> = Vec::new();
        let mut i: usize = 0;
        while i < num_objectives
            invariant
                i <= num_objectives,
                fitness@ == zeros(i as nat),
            decreases num_objectives - i,
        {
            fitness.push(0);
            i = i + 1;
            assert(fitness@ =~= zeros(i as nat));
        }
        Vector { triangles, fitness, rank: 0, crowding_distance: 0 }
    }

    /// A copy of the candidate.
    pub fn duplicate(&self) -> (v: Vector)
        ensures
            v.triangles@ == self.triangles@,
            v.fitness@ == self.fitness@,
            v.rank == self.rank,
            v.crowding_distance == self.crowding_distance,
    {
        let mut triangles: Vec<Triangle> = Vec::new();
        let mut i: usize = 0;
        while i < self.triangles.len()
            invariant
                i <= self.triangles@.len(),
                triangles@ == self.triangles@.subrange(0, i as int),
            decreases self.triangles@.len() - i,
        {
            triangles.push(self.triangles[i]);
            i = i + 1;
            assert(triangles@ =~= self.triangles@.subrange(0, i as int));
        }
        let mut fitness: Vec<i64> = Vec::new();
        let mut j: usize = 0;
        while j < self.fitness.len()
            invariant
                j <= self.fitness@.len(),
                fitness@ == self.fitness@.subrange(0, j as int),
            decreases self.fitness@.len() - j,
        {
            fitness.push(self.fitness[j]);
            j = j + 1;
            assert(fitness@ =~= self.fitness@.subrange(0, j as int));
        }
        assert(triangles@ =~= self.triangles@);
        assert(fitness@ =~= self.fitness@);
        Vector { triangles, fitness, rank: self.rank, crowding_distance: self.crowding_distance }
    }

    /// A candidate of `num_triangles` random triangles (see
    /// `Triangle::generate_random_triangle`), fitness all zero.
    pub fn generate_random_vector(width: u32, height: u32, num_triangles: usize, num_objectives: usize) -> (v: Vector)
        requires
            width as int * height as int >= 3,
        ensures
            v.shaped(num_triangles as nat, num_objectives as nat, width as int, height as int),
            v.fitness@ == zeros(num_objectives as nat),
            forall|t: int| 0 <= t < v.triangles@.len() ==> distinct_vertices(#[trigger] v.triangles@[t]),
            v.rank == 0,
            v.crowding_distance == 0,
    {
        let mut triangles: Vec<Triangle> = Vec::new();
        let mut i: usize = 0;
        while i < num_triangles
            invariant
                i <= num_triangles,
                triangles@.len() == i,
                width as int * height as int >= 3,
                triangles_in_bounds(triangles@, width as int, height as int),
                forall|t: int| 0 <= t < i ==> distinct_vertices(#[trigger] triangles@[t]),
            decreases num_triangles - i,
        {
            let t = Triangle::generate_random_triangle(width, height);
            triangles.push(t);
            i = i + 1;
        }
        Vector::from_triangles(triangles, num_objectives)
    }

    /// The mutant `xr1 + F·(xr2 − xr3)`, triangle by triangle, every component clamped
    /// into its range; fitness all zero.
    pub fn generate_mutant_vector(
        xr1: &Vector,
        xr2: &Vector,
        xr3: &Vector,
        scaling_factor: Scale,
        width: u32,
        height: u32,
        num_objectives: usize,
    ) -> (v: Vector)
        requires
            scaling_factor.denom > 0,
            width > 0,
            height > 0,
            xr2.triangles@.len() == xr1.triangles@.len(),
            xr3.triangles@.len() == xr1.triangles@.len(),
        ensures
            v.triangles@.len() == xr1.triangles@.len(),
            forall|i: int|
                0 <= i < v.triangles@.len() ==> #[trigger] v.triangles@[i] == mutant_triangle(
                    xr1.triangles@[i],
                    xr2.triangles@[i],
                    xr3.triangles@[i],
                    scaling_factor,
                    width as int,
                    height as int,
                ),
            triangles_in_bounds(v.triangles@, width as int, height as int),
            v.fitness@ == zeros(num_objectives as nat),
            v.rank == 0,
            v.crowding_distance == 0,
    {
        let n = xr1.triangles.len();
        let mut triangles: Vec<Triangle> = Vec::new();
        let mut i: usize = 0;
        while i < n
            invariant
                n == xr1.triangles@.len(),
                xr2.triangles@.len() == n,
                xr3.triangles@.len() == n,
                scaling_factor.denom > 0,
                width > 0,
                height > 0,
                i <= n,
                triangles@.len() == i,
                forall|k: int|
                    0 <= k < i ==> #[trigger] triangles@[k] == mutant_triangle(
                        xr1.triangles@[k],
                        xr2.triangles@[k],
                        xr3.triangles@[k],
                        scaling_factor,
                        width as int,
                        height as int,
                    ),
                triangles_in_bounds(triangles@, width as int, height as int),
            decreases n - i,
        {
            let t = Triangle::mutate(&xr1.triangles[i], &xr2.triangles[i], &xr3.triangles[i], scaling_factor, width, height);
            triangles.push(t);
            i = i + 1;
        }
        Vector::from_triangles(triangles, num_objectives)
    }

    /// Uniform crossover with the choices given: triangle `i` comes from `vector1` where
    /// `picks[i]` holds, else from `vector2`; fitness all zero.
    pub fn crossover_with(vector1: &Vector, vector2: &Vector, picks: &Vec<bool>, num_objectives: usize) -> (v: Vector)
        requires
            vector2.triangles@.len() == vector1.triangles@.len(),
            picks@.len() == vector1.triangles@.len(),
        ensures
            v.triangles@.len() == vector1.triangles@.len(),
            forall|i: int|
                0 <= i < v.triangles@.len() ==> #[trigger] v.triangles@[i] == if picks@[i] {
                    vector1.triangles@[i]
                } else {
                    vector2.triangles@[i]
                },
            v.fitness@ == zeros(num_objectives as nat),
            v.rank == 0,
            v.crowding_distance == 0,
    {
        let n = vector1.triangles.len();
        let mut triangles: Vec<Triangle> = Vec::new();
        let mut i: usize = 0;
        while i < n
            invariant
                n == vector1.triangles@.len(),
                vector2.triangles@.len() == n,
                picks@.len() == n,
                i <= n,
                triangles@.len() == i,
                forall|k: int|
                    0 <= k < i ==> #[trigger] triangles@[k] == if picks@[k] {
                        vector1.triangles@[k]
                    } else {
                        vector2.triangles@[k]
                    },
            decreases n - i,
        {
            if picks[i] {
                triangles.push(vector1.triangles[i]);
            } else {
                triangles.push(vector2.triangles[i]);
            }
            i = i + 1;
        }
        Vector::from_triangles(triangles, num_objectives)
    }

    /// Uniform crossover: each triangle comes from `vector1` with probability
    /// `crossover_probability / PROBABILITY_SCALE`, else from `vector2`.
    pub fn crossover(vector1: &Vector, vector2: &Vector, crossover_probability: u32, num_objectives: usize) -> (v: Vector)
        requires
            vector2.triangles@.len() == vector1.triangles@.len(),
            crossover_probability <= PROBABILITY_SCALE,
        ensures
            v.triangles@.len() == vector1.triangles@.len(),
            forall|i: int|
                0 <= i < v.triangles@.len() ==> #[trigger] v.triangles@[i] == vector1.triangles@[i]
                    || v.triangles@[i] == vector2.triangles@[i],
            crossover_probability == 0 ==> v.triangles@ == vector2.triangles@,
            crossover_probability == PROBABILITY_SCALE ==> v.triangles@ == vector1.triangles@,
            v.fitness@ == zeros(num_objectives as nat),
            v.rank == 0,
            v.crowding_distance == 0,
    {
        let n = vector1.triangles.len();
        let mut picks: Vec<bool> = Vec::new();
        let mut i: usize = 0;
        while i < n
            invariant
                i <= n,
                picks@.len() == i,
                crossover_probability <= PROBABILITY_SCALE,
                forall|k: int| 0 <= k < i ==> (crossover_probability == 0 ==> !#[trigger] picks@[k]),
                forall|k: int| 0 <= k < i ==> (crossover_probability == PROBABILITY_SCALE ==> #[trigger] picks@[k]),
            decreases n - i,
        {
            picks.push(random_ratio(crossover_probability, PROBABILITY_SCALE));
            i = i + 1;
        }
        let v = Vector::crossover_with(vector1, vector2, &picks, num_objectives);
        assert(crossover_probability == 0 ==> v.triangles@ =~= vector2.triangles@);
        assert(crossover_probability == PROBABILITY_SCALE ==> v.triangles@ =~= vector1.triangles@);
        v
    }
}

/// `v` has the triangles and fitness of a candidate of the pool that no candidate of the
/// pool dominates.
pub open spec fn undominated_copy(pool: Seq<Vector>, v: Vector) -> bool {
    exists|i: int| 0 <= i < pool.len() && undominated(pool, i) && same_candidate(v, pool[i])
}

/// The first fitness value of `v` is at most that of some candidate of the pool.
pub open spec fn no_worse_than_some(pool: Seq<Vector>, v: Vector) -> bool {
    exists|j: int| 0 <= j < pool.len() && v.fitness@[0] <= pool[j].fitness@[0]
}

/// Sum of objective `o` over the first `n` candidates.
pub open spec fn column_sum(pool: Seq<Vector>, o: int, n: int) -> int
    decreases n,
{
    if n <= 0 {
        0
    } else {
        column_sum(pool, o, n - 1) + pool[n - 1].fitness@[o]
    }
}

proof fn lemma_floor_mean(sum: int, d: int, mean: int)
    requires
        d > 0,
        d * i64::MIN <= sum <= d * i64::MAX,
        sum >= 0 ==> mean == sum / d,
        sum < 0 ==> mean == -((-(sum + 1)) / d) - 1,
    ensures
        mean == sum / d,
        i64::MIN <= mean <= i64::MAX,
{
    if sum < 0 {
        let q = (-(sum + 1)) / d;
        let r = (-(sum + 1)) % d;
        vstd::arithmetic::div_mod::lemma_fundamental_div_mod(-(sum + 1), d);
        assert(sum == (-q - 1) * d + (d - 1 - r)) by (nonlinear_arith)
            requires
                -(sum + 1) == d * q + r,
        ;
        vstd::arithmetic::div_mod::lemma_fundamental_div_mod_converse(sum, d, -q - 1, d - 1 - r);
    }
    assert(i64::MIN <= sum / d <= i64::MAX) by (nonlinear_arith)
        requires
            d > 0,
            d * i64::MIN <= sum <= d * i64::MAX,
    ;
}

/// Index `i` stands in `s`.
pub open spec fn lists(s: Seq<int>, i: int) -> bool {
    exists|k: int| 0 <= k < s.len() && s[k] == i
}

/// No index stands twice in `s`.
pub open spec fn distinct(s: Seq<int>) -> bool {
    forall|a: int, b: int| 0 <= a < b < s.len() ==> s[a] != s[b]
}

/// `fronts` are the non-dominated fronts of the pool, in rank order, covering it.
pub open spec fn fronts_of(pool: Seq<Vector>, fronts: Seq<Vec<usize>>) -> bool {
    &&& total_len(fronts, fronts.len() as int) == pool.len()
    &&& forall|f: int| 0 <= f < fronts.len() ==> #[trigger] is_front(pool, fronts, f)
    &&& forall|f: int, p: int| 0 <= f < fronts.len() && 0 <= p < fronts[f]@.len() ==> #[trigger] fronts[f]@[p] < pool.len()
}

/// `selected` is made of the candidates `chosen` of `pool`, each at most once: all the
/// members of the fronts before front `r`, members of front `r`, and nothing of later fronts;
/// front `r` is the first that does not fit in `pool_size` along with the earlier ones.
pub open spec fn nsga_choice(
    pool: Seq<Vector>,
    fronts: Seq<Vec<usize>>,
    chosen: Seq<int>,
    r: int,
    selected: Seq<Vector>,
    pool_size: int,
) -> bool {
    &&& fronts_of(pool, fronts)
    &&& chosen.len() == selected.len()
    &&& distinct(chosen)
    &&& forall|k: int| 0 <= k < chosen.len() ==> 0 <= chosen[k] < pool.len() && same_candidate(#[trigger] selected[k], pool[chosen[k]])
    &&& 0 <= r <= fronts.len()
    &&& total_len(fronts, r) <= pool_size
    &&& r < fronts.len() ==> total_len(fronts, r + 1) > pool_size
    &&& forall|i: int| 0 <= i < pool.len() && placed_before(fronts, r, i) ==> #[trigger] lists(chosen, i)
    &&& forall|k: int| 0 <= k < chosen.len() ==> #[trigger] placed_before(fronts, r + 1, chosen[k])
}

/// Where front `r` overflows: `crowded` is that front with its crowding distances, member
/// `q` a copy of pool candidate `members[q]`; the selection from position `start` on is the
/// members at positions `picked` of `crowded`, and no member left out has a larger crowding
/// distance than one taken.
pub open spec fn cut_by_distance(
    pool: Seq<Vector>,
    fronts: Seq<Vec<usize>>,
    r: int,
    start: int,
    selected: Seq<Vector>,
    crowded: Seq<Vector>,
    members: Seq<int>,
    picked: Seq<int>,
) -> bool {
    r < fronts.len() ==> {
        &&& crowded.len() == members.len()
        &&& members.len() == fronts[r]@.len()
        &&& forall|q: int|
            0 <= q < members.len() ==> in_front(fronts[r]@, members[q]) && 0 <= members[q] < pool.len() && same_candidate(
                #[trigger] crowded[q],
                pool[members[q]],
            )
        &&& forall|i: int| #[trigger] in_front(fronts[r]@, i) ==> lists(members, i)
        &&& 0 <= start <= selected.len()
        &&& picked.len() == selected.len() - start
        &&& distinct(picked)
        &&& forall|k: int| 0 <= k < picked.len() ==> 0 <= #[trigger] picked[k] < crowded.len() && selected[start + k] == crowded[picked[k]]
        &&& forall|k: int, q: int|
            0 <= k < picked.len() && 0 <= q < crowded.len() && !lists(picked, q) ==> #[trigger] crowded[q].crowding_distance
                <= #[trigger] selected[start + k].crowding_distance
    }
}

/// The outcome of environmental selection over `pool` (see `nsga_choice` and
/// `cut_by_distance`).
pub open spec fn nsga_outcome(
    pool: Seq<Vector>,
    fronts: Seq<Vec<usize>>,
    chosen: Seq<int>,
    r: int,
    crowded: Seq<Vector>,
    members: Seq<int>,
    picked: Seq<int>,
    selected: Seq<Vector>,
    pool_size: int,
) -> bool {
    &&& nsga_choice(pool, fronts, chosen, r, selected, pool_size)
    &&& cut_by_distance(pool, fronts, r, total_len(fronts, r), selected, crowded, members, picked)
}

proof fn lemma_front_not_before(pool: Seq<Vector>, fronts: Seq<Vec<usize>>, f: int, i: int)
    requires
        0 <= f < fronts.len(),
        0 <= i < pool.len(),
        is_front(pool, fronts, f),
        in_front(fronts[f]@, i),
    ensures
        !placed_before(fronts, f, i),
{
    assert(remaining(fronts, f, pool.len() as int)[i]);
}

proof fn lemma_placed_step(fronts: Seq<Vec<usize>>, f: int, i: int)
    requires
        0 <= f < fronts.len(),
    ensures
        placed_before(fronts, f + 1, i) == (placed_before(fronts, f, i) || in_front(fronts[f]@, i)),
{
    if placed_before(fronts, f + 1, i) {
        let g = choose|g: int| 0 <= g < f + 1 && in_front(#[trigger] fronts[g]@, i);
    }
    if in_front(fronts[f]@, i) {
        assert(0 <= f < f + 1 && in_front(fronts[f]@, i));
    }
    if placed_before(fronts, f, i) {
        let g = choose|g: int| 0 <= g < f && in_front(#[trigger] fronts[g]@, i);
        assert(0 <= g < f + 1);
    }
}

proof fn lemma_fronts_transfer(a: Seq<Vector>, b: Seq<Vector>, fronts: Seq<Vec<usize>>)
    requires
        a.len() == b.len(),
        forall|k: int| 0 <= k < a.len() ==> (#[trigger] a[k]).fitness@ == b[k].fitness@,
        fronts_of(a, fronts),
    ensures
        fronts_of(b, fronts),
{
    assert forall|f: int| 0 <= f < fronts.len() implies #[trigger] is_front(b, fronts, f) by {
        assert(is_front(a, fronts, f));
        let alive = remaining(fronts, f, a.len() as int);
        assert forall|i: int| 0 <= i < a.len() implies undominated_among(a, alive, i) == undominated_among(b, alive, i) by {
            assert(a[i].fitness@ == b[i].fitness@);
            if undominated_among(a, alive, i) {
                assert forall|j: int| 0 <= j < b.len() && alive[j] implies !crate::pareto::dominates_spec(#[trigger] b[j].fitness@, b[i].fitness@) by {
                    assert(a[j].fitness@ == b[j].fitness@);
                    assert(!crate::pareto::dominates_spec(a[j].fitness@, a[i].fitness@));
                }
            }
            if undominated_among(b, alive, i) {
                assert forall|j: int| 0 <= j < a.len() && alive[j] implies !crate::pareto::dominates_spec(#[trigger] a[j].fitness@, a[i].fitness@) by {
                    assert(a[j].fitness@ == b[j].fitness@);
                    assert(!crate::pareto::dominates_spec(b[j].fitness@, b[i].fitness@));
                }
            }
        }
        assert forall|i: int| 0 <= i < b.len() implies (#[trigger] in_front(fronts[f]@, i) <==> (remaining(fronts, f, b.len() as int)[i]
            && undominated_among(b, remaining(fronts, f, b.len() as int), i))) by {
            assert(in_front(fronts[f]@, i) <==> (remaining(fronts, f, a.len() as int)[i] && undominated_among(a, remaining(fronts, f, a.len() as int), i)));
        }
    }
}

proof fn lemma_total_len_step(fronts: Seq<Vec<usize>>, f: int)
    requires
        0 <= f < fronts.len(),
    ensures
        total_len(fronts, f + 1) == total_len(fronts, f) + fronts[f]@.len(),
{
}

/// The pool indices of a front's members after crowding reordered them.
proof fn lemma_segment(
    pool: Seq<Vector>,
    fronts: Seq<Vec<usize>>,
    f: int,
    copied: Seq<Vector>,
    front: Seq<Vector>,
    o: Seq<usize>,
    seg: Seq<int>,
)
    requires
        0 <= f < fronts.len(),
        copied.len() == fronts[f]@.len(),
        forall|p: int| 0 <= p < copied.len() ==> same_candidate(#[trigger] copied[p], pool[fronts[f]@[p] as int]),
        forall|p: int| 0 <= p < fronts[f]@.len() ==> #[trigger] fronts[f]@[p] < pool.len(),
        forall|p: int, q: int| 0 <= p < q < fronts[f]@.len() ==> fronts[f]@[p] < fronts[f]@[q],
        permutes(copied, front, o),
        seg == Seq::new(front.len(), |k: int| fronts[f]@[o[k] as int] as int),
    ensures
        seg.len() == front.len(),
        front.len() == fronts[f]@.len(),
        distinct(seg),
        forall|k: int|
            0 <= k < seg.len() ==> 0 <= #[trigger] seg[k] < pool.len() && in_front(fronts[f]@, seg[k]) && same_candidate(
                front[k],
                pool[seg[k]],
            ),
        forall|i: int| #[trigger] in_front(fronts[f]@, i) ==> lists(seg, i),
{
    let fr = fronts[f]@;
    assert forall|k: int| 0 <= k < seg.len() implies 0 <= #[trigger] seg[k] < pool.len() && in_front(fr, seg[k]) && same_candidate(
        front[k],
        pool[seg[k]],
    ) by {
        assert(o[k] < copied.len());
        assert(same_candidate(front[k], copied[o[k] as int]));
        assert(fr[o[k] as int] == seg[k]);
    }
    assert forall|a: int, b: int| 0 <= a < b < seg.len() implies seg[a] != seg[b] by {
        assert(o[a] != o[b]);
        if o[a] < o[b] {
            assert(fr[o[a] as int] < fr[o[b] as int]);
        } else {
            assert(fr[o[b] as int] < fr[o[a] as int]);
        }
    }
    assert forall|i: int| #[trigger] in_front(fr, i) implies lists(seg, i) by {
        let p = choose|p: int| 0 <= p < fr.len() && fr[p] == i;
        assert(crate::sorting::occurs(o, p));
        let k = choose|k: int| 0 <= k < o.len() && o[k] == p;
        assert(seg[k] == i);
    }
}

proof fn lemma_cut(
    both: Seq<Vector>,
    fronts: Seq<Vec<usize>>,
    f: int,
    start: int,
    selected: Seq<Vector>,
    before: Seq<Vector>,
    part: Seq<Vector>,
    crowded: Seq<Vector>,
    seg: Seq<int>,
    order: Seq<usize>,
    keys: Seq<i128>,
    combined: Seq<Vector>,
)
    requires
        0 <= f < fronts.len(),
        start == before.len(),
        selected == before + part,
        combined.len() == both.len(),
        forall|c: int| 0 <= c < combined.len() ==> same_candidate(#[trigger] combined[c], both[c]),
        seg.len() == crowded.len(),
        crowded.len() == fronts[f]@.len(),
        forall|k: int|
            0 <= k < seg.len() ==> 0 <= #[trigger] seg[k] < combined.len() && in_front(fronts[f]@, seg[k]) && same_candidate(
                crowded[k],
                combined[seg[k]],
            ),
        forall|i: int| #[trigger] in_front(fronts[f]@, i) ==> lists(seg, i),
        crate::sorting::is_permutation(order, crowded.len() as int),
        keys.len() == crowded.len(),
        forall|k: int| 0 <= k < crowded.len() ==> #[trigger] keys[k] == -(crowded[k].crowding_distance as int),
        crate::sorting::ordered_by(order, keys),
        part.len() <= crowded.len(),
        forall|k: int| 0 <= k < part.len() ==> #[trigger] part[k] == crowded[order[k] as int],
    ensures
        cut_by_distance(both, fronts, f, start, selected, crowded, seg, Seq::new(part.len(), |k: int| order[k] as int)),
{
    let picked = Seq::new(part.len(), |k: int| order[k] as int);
    assert forall|q: int| 0 <= q < seg.len() implies in_front(fronts[f]@, seg[q]) && 0 <= seg[q] < both.len() && same_candidate(
        #[trigger] crowded[q],
        both[seg[q]],
    ) by {
        assert(same_candidate(combined[seg[q]], both[seg[q]]));
    }
    assert forall|k: int| 0 <= k < picked.len() implies 0 <= #[trigger] picked[k] < crowded.len() && selected[start + k] == crowded[picked[k]] by {
        assert(selected[start + k] == part[k]);
    }
    assert forall|k: int, q: int|
        0 <= k < picked.len() && 0 <= q < crowded.len() && !lists(picked, q) implies #[trigger] crowded[q].crowding_distance
            <= #[trigger] selected[start + k].crowding_distance by {
        assert(crate::sorting::occurs(order, q));
        let j = choose|j: int| 0 <= j < order.len() && order[j] == q;
        if j < picked.len() {
            assert(picked[j] == q);
        }
        assert(j >= picked.len());
        assert(keys[order[k] as int] <= keys[order[j] as int]);
        assert(selected[start + k] == part[k]);
    }
}

/// `front` holds, in pool order, one copy of each candidate of the pool that no candidate
/// of the pool dominates; `idx` gives their positions.
pub open spec fn first_front_listing(pool: Seq<Vector>, idx: Seq<int>, front: Seq<Vector>) -> bool {
    &&& idx.len() == front.len()
    &&& forall|a: int, b: int| 0 <= a < b < idx.len() ==> idx[a] < idx[b]
    &&& forall|p: int| 0 <= p < idx.len() ==> 0 <= idx[p] < pool.len() && same_candidate(#[trigger] front[p], pool[idx[p]])
    &&& forall|i: int| 0 <= i < pool.len() ==> (#[trigger] lists(idx, i) <==> undominated(pool, i))
}

/// What retention left in slot `j`, where `done` tells whether the slot was handled: a copy
/// of `old_pool[j]` where the trial's fitness came lexicographically after it, else the
/// trial itself.
pub open spec fn slot_outcome(trials: Seq<Vector>, old_pool: Seq<Vector>, v: Vector, j: int, done: bool) -> bool {
    if !done {
        v == trials[j]
    } else if lex_less(old_pool[j].fitness@, trials[j].fitness@) {
        same_candidate(v, old_pool[j])
    } else {
        v == trials[j]
    }
}

/// `v` is a copy of a candidate of `old_pool`, or of a trial whose fitness does not come
/// lexicographically after that of the old candidate of its slot.
pub open spec fn survivor_of(trials: Seq<Vector>, old_pool: Seq<Vector>, v: Vector) -> bool {
    ||| holds_candidate(old_pool, v)
    ||| exists|i: int|
        0 <= i < trials.len() && i < old_pool.len() && same_candidate(v, trials[i]) && !lex_less(old_pool[i].fitness@, trials[i].fitness@)
}

/// `v` is a copy of a candidate of the pool, or its fitness does not come lexicographically
/// after that of some candidate of the pool.
pub open spec fn came_through(pool: Seq<Vector>, v: Vector) -> bool {
    ||| holds_candidate(pool, v)
    ||| exists|i: int| 0 <= i < pool.len() && !lex_less(pool[i].fitness@, v.fitness@)
}

proof fn lemma_survivor(trials: Seq<Vector>, old_pool: Seq<Vector>, retained: Seq<Vector>, v: Vector)
    requires
        retained.len() == trials.len(),
        trials.len() == old_pool.len(),
        forall|j: int| 0 <= j < retained.len() ==> #[trigger] slot_outcome(trials, old_pool, retained[j], j, true),
        holds_candidate(retained + old_pool, v) || holds_candidate(retained, v),
    ensures
        survivor_of(trials, old_pool, v),
{
    let both = retained + old_pool;
    let j = if holds_candidate(retained, v) {
        choose|j: int| 0 <= j < retained.len() && same_candidate(retained[j], v)
    } else {
        choose|j: int| 0 <= j < both.len() && same_candidate(both[j], v)
    };
    if j < retained.len() {
        assert(same_candidate(both[j], retained[j]) || holds_candidate(retained, v));
        assert(same_candidate(retained[j], v));
        assert(slot_outcome(trials, old_pool, retained[j], j, true));
        if lex_less(old_pool[j].fitness@, trials[j].fitness@) {
            assert(same_candidate(old_pool[j], v));
        } else {
            assert(same_candidate(v, trials[j]));
        }
    } else {
        assert(same_candidate(old_pool[j - retained.len()], v));
    }
}

/// Copies of the candidates of `source` at the given positions, in that order.
pub fn copy_members(source: &Vec<Vector>, positions: &Vec<usize>) -> (r: Vec<Vector>)
    requires
        forall|p: int| 0 <= p < positions@.len() ==> #[trigger] positions@[p] < source@.len(),
    ensures
        r@.len() == positions@.len(),
        forall|p: int| 0 <= p < r@.len() ==> same_candidate(#[trigger] r@[p], source@[positions@[p] as int]),
{
    let mut r: Vec<Vector> = Vec::new();
    let mut p: usize = 0;
    while p < positions.len()
        invariant
            p <= positions@.len(),
            r@.len() == p,
            forall|q: int| 0 <= q < positions@.len() ==> #[trigger] positions@[q] < source@.len(),
            forall|q: int| 0 <= q < p ==> same_candidate(#[trigger] r@[q], source@[positions@[q] as int]),
        decreases positions@.len() - p,
    {
        r.push(source[positions[p]].duplicate());
        p = p + 1;
    }
    r
}

/// Copies of the candidates of `a` followed by those of `b`.
pub fn concat_copies(a: &Vec<Vector>, b: &Vec<Vector>) -> (r: Vec<Vector>)
    requires
        a@.len() + b@.len() <= usize::MAX,
    ensures
        r@.len() == a@.len() + b@.len(),
        forall|k: int| 0 <= k < a@.len() ==> same_candidate(#[trigger] r@[k], a@[k]),
        forall|k: int| a@.len() <= k < r@.len() ==> same_candidate(#[trigger] r@[k], b@[k - a@.len()]),
{
    let mut r: Vec<Vector> = Vec::new();
    let mut k: usize = 0;
    while k < a.len()
        invariant
            k <= a@.len(),
            r@.len() == k,
            forall|q: int| 0 <= q < k ==> same_candidate(#[trigger] r@[q], a@[q]),
        decreases a@.len() - k,
    {
        r.push(a[k].duplicate());
        k = k + 1;
    }
    let mut j: usize = 0;
    while j < b.len()
        invariant
            a@.len() + b@.len() <= usize::MAX,
            j <= b@.len(),
            r@.len() == a@.len() + j,
            forall|q: int| 0 <= q < a@.len() ==> same_candidate(#[trigger] r@[q], a@[q]),
            forall|q: int| a@.len() <= q < r@.len() ==> same_candidate(#[trigger] r@[q], b@[q - a@.len()]),
        decreases b@.len() - j,
    {
        r.push(b[j].duplicate());
        j = j + 1;
    }
    r
}

/// The optimizer: the population, the target image and the settings of a run.
pub struct Environment {
    pub pool: Vec<Vector>,
    pub pool_size: usize,
    pub scaling_factor: Scale,
    pub crossover_probability: u32,
    pub target_img: Image,
    pub target_width: u32,
    pub target_height: u32,
    pub num_triangles: usize,
    pub num_threads: usize,
    pub num_objectives: usize,
    pub fitness_functions: Vec<Objective>,
    pub tournament_size: usize,
}

impl Environment {
    /// The settings of a run are consistent.
    pub open spec fn settings_ok(&self) -> bool {
        &&& 4 <= self.pool_size
        &&& 2 * self.pool_size <= usize::MAX
        &&& self.scaling_factor.denom > 0
        &&& self.crossover_probability <= PROBABILITY_SCALE
        &&& self.target_img.wf()
        &&& self.target_img.width == self.target_width
        &&& self.target_img.height == self.target_height
        &&& self.target_width as int * self.target_height as int >= 3
        &&& self.num_threads > 0
        &&& self.num_objectives == self.fitness_functions@.len()
        &&& self.tournament_size > 0
    }

    /// Every candidate of the pool has the run's shape.
    pub open spec fn pool_shaped(&self, pool: Seq<Vector>) -> bool {
        forall|i: int|
            0 <= i < pool.len() ==> (#[trigger] pool[i]).shaped(
                self.num_triangles as nat,
                self.num_objectives as nat,
                self.target_width as int,
                self.target_height as int,
            )
    }

    /// Settings consistent, and a full pool of well-shaped candidates.
    pub open spec fn ready(&self) -> bool {
        &&& self.settings_ok()
        &&& self.pool@.len() == self.pool_size
        &&& self.pool_shaped(self.pool@)
    }

    /// Same settings and target as `other`.
    pub open spec fn same_settings(&self, other: Environment) -> bool {
        &&& self.pool_size == other.pool_size
        &&& self.scaling_factor == other.scaling_factor
        &&& self.crossover_probability == other.crossover_probability
        &&& self.target_img.width == other.target_img.width
        &&& self.target_img.height == other.target_img.height
        &&& self.target_img.pixels@ == other.target_img.pixels@
        &&& self.target_width == other.target_width
        &&& self.target_height == other.target_height
        &&& self.num_triangles == other.num_triangles
        &&& self.num_threads == other.num_threads
        &&& self.num_objectives == other.num_objectives
        &&& self.fitness_functions@ == other.fitness_functions@
        &&& self.tournament_size == other.tournament_size
    }

    /// The score of the candidate with these triangles under objective `idx`.
    pub open spec fn score_of(&self, idx: int, triangles: Seq<Triangle>) -> int {
        candidate_score(self.fitness_functions@[idx], triangles, self.target_img)
    }

    /// `self` is `before` with every candidate's score under `kind` stored at objective `idx`.
    pub open spec fn scored(&self, before: Environment, idx: usize, kind: Objective) -> bool {
        &&& self.same_settings(before)
        &&& self.ready()
        &&& self.pool@.len() == before.pool@.len()
        &&& forall|k: int|
            0 <= k < self.pool@.len() ==> (#[trigger] self.pool@[k]).triangles@ == before.pool@[k].triangles@
                && i64::MIN <= candidate_score(kind, before.pool@[k].triangles@, before.target_img) <= i64::MAX
                && self.pool@[k].fitness@ == before.pool@[k].fitness@.update(
                idx as int,
                candidate_score(kind, before.pool@[k].triangles@, before.target_img) as i64,
            )
    }

    /// Every candidate of `pool` carries its own scores under every objective.
    pub open spec fn evaluated(&self, pool: Seq<Vector>) -> bool {
        forall|k: int, o: int|
            #![trigger pool[k].fitness@[o]]
            0 <= k < pool.len() && 0 <= o < self.num_objectives ==> pool[k].fitness@[o] == self.score_of(
                o,
                pool[k].triangles@,
            )
    }

    /// A run with these settings and an empty pool. The pool size must be at least 4.
    pub fn new(
        pool_size: usize,
        scaling_factor: Scale,
        crossover_probability: u32,
        target_img: Image,
        num_triangles: usize,
        num_threads: usize,
        fitness_functions: Vec<Objective>,
        tournament_size: usize,
    ) -> (env: Environment)
        requires
            4 <= pool_size,
            2 * pool_size <= usize::MAX,
            scaling_factor.denom > 0,
            crossover_probability <= PROBABILITY_SCALE,
            target_img.wf(),
            target_img.width as int * target_img.height as int >= 3,
            num_threads > 0,
            tournament_size > 0,
        ensures
            env.settings_ok(),
            env.pool@.len() == 0,
            env.pool_size == pool_size,
            env.scaling_factor == scaling_factor,
            env.crossover_probability == crossover_probability,
            env.target_img == target_img,
            env.target_width == target_img.width,
            env.target_height == target_img.height,
            env.num_triangles == num_triangles,
            env.num_threads == num_threads,
            env.num_objectives == fitness_functions@.len(),
            env.fitness_functions == fitness_functions,
            env.tournament_size == tournament_size,
    {
        let target_width = target_img.width;
        let target_height = target_img.height;
        let num_objectives = fitness_functions.len();
        Environment {
            pool: Vec::new(),
            pool_size,
            scaling_factor,
            crossover_probability,
            target_img,
            target_width,
            target_height,
            num_triangles,
            num_threads,
            num_objectives,
            fitness_functions,
            tournament_size,
        }
    }

    /// Scores every candidate under every objective, in the objectives' order.
    pub fn calculate_fitness_for_population(&mut self)
        requires
            old(self).ready(),
        ensures
            final(self).ready(),
            final(self).same_settings(*old(self)),
            final(self).pool@.len() == old(self).pool@.len(),
            forall|k: int|
                0 <= k < final(self).pool@.len() ==> (#[trigger] final(self).pool@[k]).triangles@ == old(self).pool@[k].triangles@,
            final(self).evaluated(final(self).pool@),
    {
        let ghost start = *self;
        let m = self.num_objectives;
        let mut idx: usize = 0;
        while idx < m
            invariant
                m == self.num_objectives,
                idx <= m,
                self.ready(),
                self.same_settings(start),
                self.pool@.len() == start.pool@.len(),
                forall|k: int|
                    0 <= k < self.pool@.len() ==> (#[trigger] self.pool@[k]).triangles@ == start.pool@[k].triangles@,
                forall|k: int, o: int|
                    #![trigger self.pool@[k].fitness@[o]]
                    0 <= k < self.pool@.len() && 0 <= o < idx ==> self.pool@[k].fitness@[o] == self.score_of(
                        o,
                        self.pool@[k].triangles@,
                    ),
            decreases m - idx,
        {
            let ghost before = *self;
            let kind = self.fitness_functions[idx];
            match kind {
                Objective::PixelCompare => pixel_compare::calculate_fitness(self, idx),
                Objective::Contrast => contrast::calculate_fitness(self, idx),
                Objective::Benford => benford::calculate_fitness(self, idx),
            }
            proof {
                assert forall|k: int, o: int|
                    #![trigger self.pool@[k].fitness@[o]]
                    0 <= k < self.pool@.len() && 0 <= o < idx + 1 implies self.pool@[k].fitness@[o] == self.score_of(
                        o,
                        self.pool@[k].triangles@,
                    ) by {
                    assert(self.pool@[k].triangles@ == before.pool@[k].triangles@);
                    if o < idx {
                        assert(before.pool@[k].fitness@[o] == before.score_of(o, before.pool@[k].triangles@));
                    }
                }
            }
            idx = idx + 1;
        }
    }

    /// The winner of a tournament over the drawn pool indices: the candidate with the
    /// lexicographically least fitness, the earliest drawn among equals.
    pub fn tournament_winner(&self, draws: &Vec<usize>) -> (r: usize)
        requires
            draws@.len() > 0,
            forall|t: int| 0 <= t < draws@.len() ==> #[trigger] draws@[t] < self.pool@.len(),
            uniform(self.pool@, self.num_objectives as int),
        ensures
            exists|w: int| 0 <= w < draws@.len() && draws@[w] == r && forall|t: int|
                0 <= t < w ==> lex_less(self.pool@[r as int].fitness@, #[trigger] self.pool@[draws@[t] as int].fitness@),
            forall|t: int|
                0 <= t < draws@.len() ==> !lex_less(#[trigger] self.pool@[draws@[t] as int].fitness@, self.pool@[r as int].fitness@),
    {
        let mut best = draws[0];
        let ghost mut w: int = 0;
        proof {
            let b = self.pool@[best as int].fitness@;
            lemma_lex_order(b, b, b, 0);
        }
        let mut t: usize = 1;
        while t < draws.len()
            invariant
                1 <= t <= draws@.len(),
                forall|u: int| 0 <= u < draws@.len() ==> #[trigger] draws@[u] < self.pool@.len(),
                uniform(self.pool@, self.num_objectives as int),
                0 <= w < t,
                draws@[w] == best,
                forall|u: int| 0 <= u < w ==> lex_less(self.pool@[best as int].fitness@, #[trigger] self.pool@[draws@[u] as int].fitness@),
                forall|u: int| 0 <= u < t ==> !lex_less(#[trigger] self.pool@[draws@[u] as int].fitness@, self.pool@[best as int].fitness@),
            decreases draws@.len() - t,
        {
            let candidate = draws[t];
            if fitness_less(&self.pool[candidate].fitness, &self.pool[best].fitness) {
                proof {
                    let c = self.pool@[candidate as int].fitness@;
                    let b = self.pool@[best as int].fitness@;
                    assert forall|u: int| 0 <= u < t implies lex_less(c, #[trigger] self.pool@[draws@[u] as int].fitness@) by {
                        let d = self.pool@[draws@[u] as int].fitness@;
                        lemma_lex_total(b, d, 0);
                        lemma_lex_order(c, b, d, 0);
                        if b.subrange(0, b.len() as int) == d.subrange(0, d.len() as int) {
                            assert(b =~= b.subrange(0, b.len() as int));
                            assert(d =~= d.subrange(0, d.len() as int));
                        }
                    }
                    assert forall|u: int| 0 <= u < t + 1 implies !lex_less(#[trigger] self.pool@[draws@[u] as int].fitness@, c) by {
                        let d = self.pool@[draws@[u] as int].fitness@;
                        lemma_lex_order(c, d, c, 0);
                        lemma_lex_order(d, c, b, 0);
                    }
                    w = t as int;
                }
                best = candidate;
            }
            t = t + 1;
        }
        best
    }

    /// Tournament selection: `tournament_size` pool indices drawn uniformly with
    /// replacement, and the winner among them (see `tournament_winner`).
    pub fn tournament_selection(&self, tournament_size: usize) -> (r: usize)
        requires
            tournament_size > 0,
            self.pool@.len() > 0,
            uniform(self.pool@, self.num_objectives as int),
        ensures
            r < self.pool@.len(),
    {
        let mut draws: Vec<usize> = Vec::new();
        let mut t: usize = 0;
        while t < tournament_size
            invariant
                t <= tournament_size,
                draws@.len() == t,
                self.pool@.len() > 0,
                forall|u: int| 0 <= u < t ==> #[trigger] draws@[u] < self.pool@.len(),
            decreases tournament_size - t,
        {
            let index = random_below(0, self.pool.len() as u64) as usize;
            draws.push(index);
            t = t + 1;
        }
        let r = self.tournament_winner(&draws);
        r
    }

    /// Single-objective environmental selection: the pool sorted by the first objective,
    /// ascending, its best `pool_size` kept.
    pub fn single_objective_selection(&mut self)
        requires
            old(self).ready(),
            old(self).num_objectives >= 1,
        ensures
            final(self).ready(),
            final(self).same_settings(*old(self)),
            drawn_from(old(self).pool@, final(self).pool@),
            crate::crowding::permuted(old(self).pool@, final(self).pool@),
            forall|a: int, b: int|
                0 <= a <= b < final(self).pool@.len() ==> final(self).pool@[a].fitness@[0] <= final(self).pool@[b].fitness@[0],
    {
        let ghost start = self.pool@;
        let n = self.pool.len();
        let mut keys: Vec<i128> = Vec::new();
        let mut k: usize = 0;
        while k < n
            invariant
                n == self.pool@.len(),
                self.ready(),
                self.num_objectives >= 1,
                k <= n,
                keys@.len() == k,
                forall|a: int| 0 <= a < k ==> #[trigger] keys@[a] == self.pool@[a].fitness@[0],
            decreases n - k,
        {
            proof {
                assert(self.pool@[k as int].shaped(
                    self.num_triangles as nat,
                    self.num_objectives as nat,
                    self.target_width as int,
                    self.target_height as int,
                ));
            }
            keys.push(self.pool[k].fitness[0] as i128);
            k = k + 1;
        }
        let order = sorted_order(&keys);
        let mut taken: Vec<Vector> = Vec::new();
        std::mem::swap(&mut self.pool, &mut taken);
        let mut sorted = crate::crowding::reorder(taken, &order);
        sorted.truncate(self.pool_size);
        proof {
            assert forall|a: int, b: int| 0 <= a <= b < n implies sorted@[a].fitness@[0] <= sorted@[b].fitness@[0] by {
                assert(keys@[order@[a] as int] <= keys@[order@[b] as int]);
            }
            assert forall|a: int| 0 <= a < n implies #[trigger] holds_candidate(start, sorted@[a]) by {
                assert(same_candidate(start[order@[a] as int], sorted@[a]));
            }
            assert(sorted@.len() == n);
            assert forall|a: int| 0 <= a < n implies same_candidate(#[trigger] sorted@[a], start[order@[a] as int]) by {}
            assert(permutes(start, sorted@, order@));
            assert forall|a: int| 0 <= a < n implies (#[trigger] sorted@[a]).shaped(
                self.num_triangles as nat,
                self.num_objectives as nat,
                self.target_width as int,
                self.target_height as int,
            ) by {
                assert(start[order@[a] as int].shaped(
                    self.num_triangles as nat,
                    self.num_objectives as nat,
                    self.target_width as int,
                    self.target_height as int,
                ));
            }
        }
        self.pool = sorted;
    }

    /// Multi-objective environmental selection over the pool and `old_pool` together: whole
    /// non-dominated fronts are admitted while they fit in `pool_size`; of the front that
    /// would overflow, the members with the largest crowding distance fill what is left.
    pub fn nsga_selection(&mut self, old_pool: &Vec<Vector>)
        requires
            old(self).settings_ok(),
            old(self).pool_shaped(old(self).pool@),
            old(self).pool_shaped(old_pool@),
            old(self).pool@.len() + old_pool@.len() >= old(self).pool_size,
            old(self).pool@.len() + old_pool@.len() <= usize::MAX,
        ensures
            final(self).ready(),
            final(self).same_settings(*old(self)),
            final(self).pool@.len() == old(self).pool_size,
            forall|k: int|
                0 <= k < final(self).pool@.len() ==> #[trigger] holds_candidate(old(self).pool@ + old_pool@, final(self).pool@[k]),
            exists|fronts: Seq<Vec<usize>>, chosen: Seq<int>, r: int, crowded: Seq<Vector>, members: Seq<int>, picked: Seq<int>|
                #[trigger] nsga_outcome(
                    old(self).pool@ + old_pool@,
                    fronts,
                    chosen,
                    r,
                    crowded,
                    members,
                    picked,
                    final(self).pool@,
                    old(self).pool_size as int,
                ),
    {
        let combined = concat_copies(&self.pool, old_pool);
        let ghost both = self.pool@ + old_pool@;
        proof {
            assert forall|k: int| 0 <= k < combined@.len() implies (#[trigger] combined@[k]).shaped(
                self.num_triangles as nat,
                self.num_objectives as nat,
                self.target_width as int,
                self.target_height as int,
            ) && holds_candidate(both, combined@[k]) by {
                if k < self.pool@.len() {
                    assert(self.pool@[k].shaped(
                        self.num_triangles as nat,
                        self.num_objectives as nat,
                        self.target_width as int,
                        self.target_height as int,
                    ));
                    assert(same_candidate(both[k], combined@[k]));
                } else {
                    assert(old_pool@[k - self.pool@.len()].shaped(
                        self.num_triangles as nat,
                        self.num_objectives as nat,
                        self.target_width as int,
                        self.target_height as int,
                    ));
                    assert(same_candidate(both[k], combined@[k]));
                }
            }
        }
        let m = self.num_objectives;
        let pool_size = self.pool_size;
        let fronts = non_dominated_sort(&combined, m);
        let mut new_pool: Vec<Vector> = Vec::new();
        let mut f: usize = 0;
        let mut filled = false;
        let ghost mut chosen: Seq<int> = Seq::empty();
        let ghost n = combined@.len() as int;
        proof {
            assert forall|c: int| 0 <= c < n implies same_candidate(#[trigger] combined@[c], both[c]) by {}
        }
        let ghost mut crowded_w: Seq<Vector> = Seq::empty();
        let ghost mut members_w: Seq<int> = Seq::empty();
        let ghost mut picked_w: Seq<int> = Seq::empty();
        while f < fronts.len() && !filled
            invariant
                f <= fronts@.len(),
                n == combined@.len(),
                fronts_of(combined@, fronts@),
                forall|g: int, p: int, q: int|
                    0 <= g < fronts@.len() && 0 <= p < q < fronts@[g]@.len() ==> fronts@[g]@[p] < fronts@[g]@[q],
                chosen.len() == new_pool@.len(),
                distinct(chosen),
                forall|k: int| 0 <= k < chosen.len() ==> 0 <= #[trigger] chosen[k] < n,
                forall|k: int| 0 <= k < chosen.len() ==> same_candidate(#[trigger] new_pool@[k], combined@[chosen[k]]),
                forall|k: int| 0 <= k < chosen.len() ==> #[trigger] placed_before(fronts@, f as int, chosen[k]),
                !filled ==> forall|i: int| 0 <= i < n && placed_before(fronts@, f as int, i) ==> #[trigger] lists(chosen, i),
                filled ==> f >= 1 && total_len(fronts@, f as int) > pool_size && total_len(fronts@, f - 1) <= pool_size,
                filled ==> forall|i: int| 0 <= i < n && placed_before(fronts@, f - 1, i) ==> #[trigger] lists(chosen, i),
                filled ==> new_pool@.len() >= total_len(fronts@, f - 1),
                both.len() == n,
                forall|c: int| 0 <= c < n ==> same_candidate(#[trigger] combined@[c], both[c]),
                filled ==> cut_by_distance(both, fronts@, f - 1, total_len(fronts@, f - 1), new_pool@, crowded_w, members_w, picked_w),
                m == self.num_objectives,
                pool_size == self.pool_size,
                self.settings_ok(),
                total_len(fronts@, fronts@.len() as int) == combined@.len(),
                combined@.len() >= pool_size,
                forall|g: int| 0 <= g < fronts@.len() ==> (#[trigger] fronts@[g])@.len() > 0,
                forall|g: int, p: int|
                    0 <= g < fronts@.len() && 0 <= p < fronts@[g]@.len() ==> #[trigger] fronts@[g]@[p] < combined@.len(),
                forall|k: int| 0 <= k < combined@.len() ==> (#[trigger] combined@[k]).shaped(
                    self.num_triangles as nat,
                    self.num_objectives as nat,
                    self.target_width as int,
                    self.target_height as int,
                ) && holds_candidate(both, combined@[k]),
                filled ==> new_pool@.len() == pool_size,
                !filled ==> new_pool@.len() == total_len(fronts@, f as int),
                new_pool@.len() <= pool_size,
                forall|k: int| 0 <= k < new_pool@.len() ==> #[trigger] holds_candidate(combined@, new_pool@[k]),
            decreases fronts@.len() - f,
        {
            let mut front = copy_members(&combined, &fronts[f]);
            proof {
                assert forall|p: int| 0 <= p < front@.len() implies (#[trigger] front@[p]).fitness@.len() == m by {
                    assert(combined@[fronts@[f as int]@[p] as int].shaped(
                        self.num_triangles as nat,
                        self.num_objectives as nat,
                        self.target_width as int,
                        self.target_height as int,
                    ));
                }
                assert forall|p: int| 0 <= p < front@.len() implies #[trigger] holds_candidate(combined@, front@[p]) by {
                    assert(same_candidate(combined@[fronts@[f as int]@[p] as int], front@[p]));
                }
            }
            let ghost copied = front@;
            calculate_crowding_distance(&mut front, m);
            let ghost o = choose|o: Seq<usize>| permutes(copied, front@, o);
            let ghost seg: Seq<int> = Seq::new(front@.len(), |k: int| fronts@[f as int]@[o[k] as int] as int);
            proof {
                lemma_segment(combined@, fronts@, f as int, copied, front@, o, seg);
                assert forall|k: int| 0 <= k < chosen.len() implies !in_front(fronts@[f as int]@, #[trigger] chosen[k]) by {
                    assert(placed_before(fronts@, f as int, chosen[k]));
                    if in_front(fronts@[f as int]@, chosen[k]) {
                        lemma_front_not_before(combined@, fronts@, f as int, chosen[k]);
                    }
                }
            }
            proof {
                assert forall|p: int| 0 <= p < front@.len() implies #[trigger] holds_candidate(combined@, front@[p]) by {
                    assert(holds_candidate(copied, front@[p]));
                    let q = choose|q: int| 0 <= q < copied.len() && same_candidate(copied[q], front@[p]);
                    assert(holds_candidate(combined@, copied[q]));
                    let c = choose|c: int| 0 <= c < combined@.len() && same_candidate(combined@[c], copied[q]);
                    assert(same_candidate(combined@[c], front@[p]));
                }
            }
            if front.len() > pool_size - new_pool.len() {
                let mut keys: Vec<i128> = Vec::new();
                let mut k: usize = 0;
                while k < front.len()
                    invariant
                        k <= front@.len(),
                        keys@.len() == k,
                        forall|a: int| 0 <= a < k ==> #[trigger] keys@[a] == -(front@[a].crowding_distance as int),
                    decreases front@.len() - k,
                {
                    keys.push(-(front[k].crowding_distance as i128));
                    k = k + 1;
                }
                let order = sorted_order(&keys);
                let ghost crowded = front@;
                let mut ranked = crate::crowding::reorder(front, &order);
                let remaining = pool_size - new_pool.len();
                ranked.truncate(remaining);
                proof {
                    assert forall|p: int| 0 <= p < ranked@.len() implies #[trigger] holds_candidate(combined@, ranked@[p]) by {
                        assert(ranked@[p] == crowded[order@[p] as int]);
                        assert(holds_candidate(combined@, crowded[order@[p] as int]));
                    }
                }
                let ghost before = new_pool@;
                let ghost part = ranked@;
                let ghost seg2: Seq<int> = Seq::new(part.len(), |k: int| seg[order@[k] as int]);
                new_pool.append(&mut ranked);
                proof {
                    let old_chosen = chosen;
                    chosen = chosen + seg2;
                    crowded_w = crowded;
                    members_w = seg;
                    picked_w = Seq::new(part.len(), |k: int| order@[k] as int);
                    lemma_cut(both, fronts@, f as int, before.len() as int, new_pool@, before, part, crowded, seg, order@, keys@, combined@);
                    lemma_total_len_step(fronts@, f as int);
                    assert forall|k: int| 0 <= k < part.len() implies same_candidate(#[trigger] part[k], combined@[seg2[k]]) by {
                        assert(part[k] == crowded[order@[k] as int]);
                        assert(order@[k] < crowded.len());
                    }
                    assert forall|a: int, b: int| 0 <= a < b < chosen.len() implies chosen[a] != chosen[b] by {
                        if b >= old_chosen.len() && a >= old_chosen.len() {
                            assert(order@[a - old_chosen.len()] != order@[b - old_chosen.len()]);
                        } else if b >= old_chosen.len() {
                            assert(!in_front(fronts@[f as int]@, old_chosen[a]));
                            let q = order@[b - old_chosen.len()] as int;
                            assert(in_front(fronts@[f as int]@, seg[q]));
                        }
                    }
                    assert forall|k: int| 0 <= k < chosen.len() implies 0 <= chosen[k] < n && same_candidate(#[trigger] new_pool@[k], combined@[chosen[k]]) by {
                        if k < before.len() {
                            assert(new_pool@[k] == before[k]);
                            assert(chosen[k] == old_chosen[k]);
                        } else {
                            assert(new_pool@[k] == part[k - before.len()]);
                            assert(chosen[k] == seg2[k - old_chosen.len()]);
                            let q = order@[k - before.len()] as int;
                            assert(0 <= seg[q] < n);
                        }
                    }
                    assert forall|k: int| 0 <= k < chosen.len() implies #[trigger] placed_before(fronts@, f + 1, chosen[k]) by {
                        lemma_placed_step(fronts@, f as int, chosen[k]);
                        if k >= old_chosen.len() {
                            let q = order@[k - old_chosen.len()] as int;
                            assert(in_front(fronts@[f as int]@, seg[q]));
                        }
                    }
                    assert forall|i: int| 0 <= i < n && placed_before(fronts@, f as int, i) implies #[trigger] lists(chosen, i) by {
                        assert(lists(old_chosen, i));
                        let k = choose|k: int| 0 <= k < old_chosen.len() && old_chosen[k] == i;
                        assert(chosen[k] == i);
                    }
                    assert forall|k: int| 0 <= k < new_pool@.len() implies #[trigger] holds_candidate(combined@, new_pool@[k]) by {
                        if k < before.len() {
                            assert(new_pool@[k] == before[k]);
                            assert(chosen[k] == old_chosen[k]);
                        } else {
                            assert(new_pool@[k] == part[k - before.len()]);
                            assert(chosen[k] == seg2[k - old_chosen.len()]);
                        }
                    }
                }
                filled = true;
            } else {
                let ghost before = new_pool@;
                let ghost added = front@;
                new_pool.append(&mut front);
                proof {
                    let old_chosen = chosen;
                    chosen = chosen + seg;
                    lemma_total_len_step(fronts@, f as int);
                    assert forall|a: int, b: int| 0 <= a < b < chosen.len() implies chosen[a] != chosen[b] by {
                        if b >= old_chosen.len() && a < old_chosen.len() {
                            assert(!in_front(fronts@[f as int]@, old_chosen[a]));
                            assert(in_front(fronts@[f as int]@, seg[b - old_chosen.len()]));
                        }
                    }
                    assert forall|k: int| 0 <= k < chosen.len() implies 0 <= chosen[k] < n && same_candidate(#[trigger] new_pool@[k], combined@[chosen[k]]) by {
                        if k < before.len() {
                            assert(new_pool@[k] == before[k]);
                            assert(chosen[k] == old_chosen[k]);
                        } else {
                            assert(new_pool@[k] == added[k - before.len()]);
                            assert(chosen[k] == seg[k - old_chosen.len()]);
                        }
                    }
                    assert forall|k: int| 0 <= k < chosen.len() implies #[trigger] placed_before(fronts@, f + 1, chosen[k]) by {
                        lemma_placed_step(fronts@, f as int, chosen[k]);
                        if k >= old_chosen.len() {
                            assert(in_front(fronts@[f as int]@, seg[k - old_chosen.len()]));
                        }
                    }
                    assert forall|i: int| 0 <= i < n && placed_before(fronts@, f + 1, i) implies #[trigger] lists(chosen, i) by {
                        lemma_placed_step(fronts@, f as int, i);
                        if placed_before(fronts@, f as int, i) {
                            assert(lists(old_chosen, i));
                            let k = choose|k: int| 0 <= k < old_chosen.len() && old_chosen[k] == i;
                            assert(chosen[k] == i);
                        } else {
                            assert(lists(seg, i));
                            let k = choose|k: int| 0 <= k < seg.len() && seg[k] == i;
                            assert(chosen[old_chosen.len() + k] == i);
                        }
                    }
                    assert(fronts@[f as int]@.len() == added.len());
                    assert forall|k: int| 0 <= k < new_pool@.len() implies #[trigger] holds_candidate(combined@, new_pool@[k]) by {
                        if k < before.len() {
                            assert(new_pool@[k] == before[k]);
                            assert(chosen[k] == old_chosen[k]);
                        } else {
                            assert(new_pool@[k] == added[k - before.len()]);
                            assert(chosen[k] == seg[k - old_chosen.len()]);
                        }
                    }
                }
            }
            f = f + 1;
        }
        proof {
            if !filled {
                assert(f == fronts@.len());
            }
            assert forall|k: int| 0 <= k < new_pool@.len() implies (#[trigger] new_pool@[k]).shaped(
                self.num_triangles as nat,
                self.num_objectives as nat,
                self.target_width as int,
                self.target_height as int,
            ) && holds_candidate(both, new_pool@[k]) by {
                assert(holds_candidate(combined@, new_pool@[k]));
                let c = choose|c: int| 0 <= c < combined@.len() && same_candidate(combined@[c], new_pool@[k]);
                assert(combined@[c].shaped(
                    self.num_triangles as nat,
                    self.num_objectives as nat,
                    self.target_width as int,
                    self.target_height as int,
                ));
                assert(holds_candidate(both, combined@[c]));
                let b = choose|b: int| 0 <= b < both.len() && same_candidate(both[b], combined@[c]);
                assert(same_candidate(both[b], new_pool@[k]));
            }
        }
        proof {
            let r: int = if filled { f - 1 } else { f as int };
            lemma_fronts_transfer(combined@, both, fronts@);
            assert forall|k: int| 0 <= k < chosen.len() implies 0 <= chosen[k] < both.len() && same_candidate(#[trigger] new_pool@[k], both[chosen[k]]) by {
                let c = chosen[k];
                assert(same_candidate(new_pool@[k], combined@[c]));
                if c < self.pool@.len() {
                    assert(same_candidate(combined@[c], both[c]));
                } else {
                    assert(same_candidate(combined@[c], both[c]));
                }
            }
            assert forall|k: int| 0 <= k < chosen.len() implies #[trigger] placed_before(fronts@, r + 1, chosen[k]) by {
                assert(placed_before(fronts@, f as int, chosen[k]));
                if !filled {
                    let g = choose|g: int| 0 <= g < f && in_front(#[trigger] fronts@[g]@, chosen[k]);
                    assert(0 <= g < r + 1);
                }
            }
            assert(fronts_of(both, fronts@));
            assert(distinct(chosen));
            assert(0 <= r <= fronts@.len());
            assert(total_len(fronts@, r) <= pool_size);
            assert(r < fronts@.len() ==> total_len(fronts@, r + 1) > pool_size);
            assert(forall|i: int| 0 <= i < both.len() && placed_before(fronts@, r, i) ==> #[trigger] lists(chosen, i));
            assert(nsga_choice(both, fronts@, chosen, r, new_pool@, pool_size as int));
            if filled {
                assert(cut_by_distance(both, fronts@, r, total_len(fronts@, r), new_pool@, crowded_w, members_w, picked_w));
            }
            assert(nsga_outcome(both, fronts@, chosen, r, crowded_w, members_w, picked_w, new_pool@, pool_size as int));
        }
        self.pool = new_pool;
    }

    /// Candidates of a ready pool all have one fitness value per objective.
    pub proof fn lemma_ready_uniform(&self)
        requires
            self.pool_shaped(self.pool@),
        ensures
            uniform(self.pool@, self.num_objectives as int),
    {
        assert forall|i: int| 0 <= i < self.pool@.len() implies (#[trigger] self.pool@[i]).fitness@.len() == self.num_objectives by {
            assert(self.pool@[i].shaped(
                self.num_triangles as nat,
                self.num_objectives as nat,
                self.target_width as int,
                self.target_height as int,
            ));
        }
    }

    /// Copies of the pool's first front: the candidates that no candidate of the pool
    /// dominates.
    pub fn get_first_front(&self) -> (front: Vec<Vector>)
        requires
            self.ready(),
        ensures
            forall|p: int| 0 <= p < front@.len() ==> #[trigger] undominated_copy(self.pool@, front@[p]),
            forall|i: int|
                0 <= i < self.pool@.len() && undominated(self.pool@, i) ==> #[trigger] holds_candidate(front@, self.pool@[i]),
            exists|idx: Seq<int>| #[trigger] first_front_listing(self.pool@, idx, front@),
    {
        proof {
            self.lemma_ready_uniform();
        }
        let fronts = non_dominated_sort(&self.pool, self.num_objectives);
        if fronts.len() == 0 {
            proof {
                assert(self.pool@.len() == 0);
                assert(first_front_listing(self.pool@, Seq::empty(), Seq::<Vector>::empty()));
            }
            return Vec::new();
        }
        let front = copy_members(&self.pool, &fronts[0]);
        proof {
            assert forall|p: int| 0 <= p < front@.len() implies #[trigger] undominated_copy(self.pool@, front@[p]) by {
                let i = fronts@[0]@[p] as int;
                assert(undominated(self.pool@, i));
                assert(same_candidate(front@[p], self.pool@[i]));
            }
            assert forall|i: int| 0 <= i < self.pool@.len() && undominated(self.pool@, i) implies #[trigger] holds_candidate(front@, self.pool@[i]) by {
                let p = choose|p: int| 0 <= p < fronts@[0]@.len() && #[trigger] fronts@[0]@[p] == i;
                assert(same_candidate(front@[p], self.pool@[i]));
            }
            let idx = Seq::new(fronts@[0]@.len(), |p: int| fronts@[0]@[p] as int);
            assert forall|i: int| 0 <= i < self.pool@.len() implies (#[trigger] lists(idx, i) <==> undominated(self.pool@, i)) by {
                if lists(idx, i) {
                    let p = choose|p: int| 0 <= p < idx.len() && idx[p] == i;
                    assert(fronts@[0]@[p] == i);
                }
                if undominated(self.pool@, i) {
                    let p = choose|p: int| 0 <= p < fronts@[0]@.len() && #[trigger] fronts@[0]@[p] == i;
                    assert(idx[p] == i);
                }
            }
            assert forall|p: int| 0 <= p < idx.len() implies 0 <= idx[p] < self.pool@.len() && same_candidate(#[trigger] front@[p], self.pool@[idx[p]]) by {}
            assert(first_front_listing(self.pool@, idx, front@));
        }
        front
    }

    /// One generation. For each slot a mutant `xr1 + F·(xr2 − xr3)` of three tournament
    /// winners is crossed with the slot's candidate; the new pool is scored; a slot whose
    /// new fitness comes lexicographically after its old one gets its old candidate back;
    /// then environmental selection: by the one objective if there is one, else over the
    /// new and the old pool by non-dominated fronts and crowding distance.
    pub fn iterate(&mut self)
        requires
            old(self).ready(),
            old(self).evaluated(old(self).pool@),
        ensures
            final(self).ready(),
            final(self).same_settings(*old(self)),
            final(self).evaluated(final(self).pool@),
            old(self).num_objectives == 1 ==> forall|k: int|
                0 <= k < final(self).pool@.len() ==> #[trigger] no_worse_than_some(old(self).pool@, final(self).pool@[k]),
            old(self).num_objectives == 1 ==> forall|a: int, b: int|
                0 <= a <= b < final(self).pool@.len() ==> final(self).pool@[a].fitness@[0] <= final(self).pool@[b].fitness@[0],
            forall|k: int| 0 <= k < final(self).pool@.len() ==> #[trigger] came_through(old(self).pool@, final(self).pool@[k]),
            old(self).num_objectives == 1 ==> forall|j: int|
                0 <= j < old(self).pool@.len() ==> final(self).pool@[0].fitness@[0] <= #[trigger] old(self).pool@[j].fitness@[0],
    {
        let ghost start = *self;
        let old_pool = concat_copies(&self.pool, &Vec::new());
        let n = self.pool_size;
        let mut i: usize = 0;
        while i < n
            invariant
                n == self.pool_size,
                i <= n,
                self.ready(),
                self.same_settings(start),
                old_pool@.len() == n,
                forall|k: int| 0 <= k < n ==> same_candidate(#[trigger] old_pool@[k], start.pool@[k]),
            decreases n - i,
        {
            proof {
                self.lemma_ready_uniform();
            }
            let a = self.tournament_selection(self.tournament_size);
            let b = self.tournament_selection(self.tournament_size);
            let c = self.tournament_selection(self.tournament_size);
            proof {
                assert(self.pool@[a as int].shaped(self.num_triangles as nat, self.num_objectives as nat, self.target_width as int, self.target_height as int));
                assert(self.pool@[b as int].shaped(self.num_triangles as nat, self.num_objectives as nat, self.target_width as int, self.target_height as int));
                assert(self.pool@[c as int].shaped(self.num_triangles as nat, self.num_objectives as nat, self.target_width as int, self.target_height as int));
                assert(self.pool@[i as int].shaped(self.num_triangles as nat, self.num_objectives as nat, self.target_width as int, self.target_height as int));
                assert(self.target_width > 0 && self.target_height > 0) by (nonlinear_arith)
                    requires
                        self.target_width as int * self.target_height as int >= 3,
                ;
            }
            let mutant = Vector::generate_mutant_vector(
                &self.pool[a],
                &self.pool[b],
                &self.pool[c],
                self.scaling_factor,
                self.target_width,
                self.target_height,
                self.num_objectives,
            );
            let trial = Vector::crossover(&mutant, &self.pool[i], self.crossover_probability, self.num_objectives);
            proof {
                assert forall|t: int| 0 <= t < trial.triangles@.len() implies triangle_in_bounds(
                    #[trigger] trial.triangles@[t],
                    self.target_width as int,
                    self.target_height as int,
                ) by {
                    assert(triangle_in_bounds(mutant.triangles@[t], self.target_width as int, self.target_height as int));
                    assert(triangle_in_bounds(self.pool@[i as int].triangles@[t], self.target_width as int, self.target_height as int));
                }
            }
            self.pool.set(i, trial);
            i = i + 1;
        }
        self.calculate_fitness_for_population();
        proof {
            assert forall|j: int| 0 <= j < old_pool@.len() implies (#[trigger] old_pool@[j]).shaped(
                self.num_triangles as nat,
                self.num_objectives as nat,
                self.target_width as int,
                self.target_height as int,
            ) by {
                assert(same_candidate(old_pool@[j], start.pool@[j]));
                assert(start.pool@[j].shaped(start.num_triangles as nat, start.num_objectives as nat, start.target_width as int, start.target_height as int));
            }
            assert forall|j: int, o: int|
                #![trigger old_pool@[j].fitness@[o]]
                0 <= j < n && 0 <= o < self.num_objectives implies old_pool@[j].fitness@[o] == self.score_of(o, old_pool@[j].triangles@) by {
                assert(same_candidate(old_pool@[j], start.pool@[j]));
                assert(start.pool@[j].fitness@[o] == start.score_of(o, start.pool@[j].triangles@));
            }
        }
        let ghost trials = self.pool@;
        self.select_survivors(&old_pool);
        proof {
            assert forall|q: int| 0 <= q < self.pool@.len() implies #[trigger] came_through(start.pool@, self.pool@[q]) by {
                assert(survivor_of(trials, old_pool@, self.pool@[q]));
                if holds_candidate(old_pool@, self.pool@[q]) {
                    let j = choose|j: int| 0 <= j < old_pool@.len() && same_candidate(old_pool@[j], self.pool@[q]);
                    assert(same_candidate(start.pool@[j], self.pool@[q]));
                } else {
                    let i = choose|i: int|
                        0 <= i < trials.len() && same_candidate(self.pool@[q], trials[i]) && !lex_less(old_pool@[i].fitness@, trials[i].fitness@);
                    assert(old_pool@[i].fitness@ == start.pool@[i].fitness@);
                }
            }
            if self.num_objectives == 1 {
                assert forall|j: int| 0 <= j < start.pool@.len() implies self.pool@[0].fitness@[0] <= #[trigger] start.pool@[j].fitness@[0] by {
                    assert(old_pool@[j].fitness@ == start.pool@[j].fitness@);
                }
                assert forall|q: int| 0 <= q < self.pool@.len() implies #[trigger] no_worse_than_some(start.pool@, self.pool@[q]) by {
                    assert(no_worse_than_some(old_pool@, self.pool@[q]));
                    let j = choose|j: int| 0 <= j < old_pool@.len() && self.pool@[q].fitness@[0] <= old_pool@[j].fitness@[0];
                    assert(old_pool@[j].fitness@ == start.pool@[j].fitness@);
                }
            }
        }
    }

    /// Greedy per-slot retention, then environmental selection. Slot `k` of the pool holds
    /// this generation's scored trial; where its fitness comes lexicographically after that
    /// of `old_pool[k]`, the slot gets a copy of `old_pool[k]` back. Then, with one
    /// objective, the pool is sorted by it; else the pool and `old_pool` go through
    /// `nsga_selection`.
    pub fn select_survivors(&mut self, old_pool: &Vec<Vector>)
        requires
            old(self).ready(),
            old(self).evaluated(old(self).pool@),
            old_pool@.len() == old(self).pool_size,
            old(self).pool_shaped(old_pool@),
            old(self).evaluated(old_pool@),
        ensures
            final(self).ready(),
            final(self).same_settings(*old(self)),
            final(self).evaluated(final(self).pool@),
            forall|k: int|
                0 <= k < final(self).pool@.len() ==> #[trigger] survivor_of(old(self).pool@, old_pool@, final(self).pool@[k]),
            old(self).num_objectives == 1 ==> forall|a: int, b: int|
                0 <= a <= b < final(self).pool@.len() ==> final(self).pool@[a].fitness@[0] <= final(self).pool@[b].fitness@[0],
            old(self).num_objectives == 1 ==> forall|k: int|
                0 <= k < final(self).pool@.len() ==> #[trigger] no_worse_than_some(old_pool@, final(self).pool@[k]),
            old(self).num_objectives == 1 ==> forall|j: int|
                0 <= j < old_pool@.len() ==> final(self).pool@[0].fitness@[0] <= #[trigger] old_pool@[j].fitness@[0],
    {
        let ghost start = *self;
        let ghost trials = self.pool@;
        let n = self.pool_size;
        let mut k: usize = 0;
        while k < n
            invariant
                n == self.pool_size,
                k <= n,
                self.ready(),
                self.same_settings(start),
                self.evaluated(self.pool@),
                self.evaluated(old_pool@),
                self.pool_shaped(old_pool@),
                old_pool@.len() == n,
                trials.len() == n,
                forall|j: int| 0 <= j < k ==> !lex_less(#[trigger] old_pool@[j].fitness@, self.pool@[j].fitness@),
                forall|j: int|
                    0 <= j < n ==> slot_outcome(trials, old_pool@, #[trigger] self.pool@[j], j, j < k),
            decreases n - k,
        {
            if fitness_less(&old_pool[k].fitness, &self.pool[k].fitness) {
                let back = old_pool[k].duplicate();
                let ghost before = self.pool@;
                self.pool.set(k, back);
                proof {
                    assert(old_pool@[k as int].shaped(self.num_triangles as nat, self.num_objectives as nat, self.target_width as int, self.target_height as int));
                    let b = old_pool@[k as int].fitness@;
                    lemma_lex_order(b, b, b, 0);
                    assert forall|j: int, o: int|
                        #![trigger self.pool@[j].fitness@[o]]
                        0 <= j < n && 0 <= o < self.num_objectives implies self.pool@[j].fitness@[o] == self.score_of(o, self.pool@[j].triangles@) by {
                        if j == k {
                            assert(old_pool@[j].fitness@[o] == self.score_of(o, old_pool@[j].triangles@));
                        } else {
                            assert(before[j].fitness@[o] == self.score_of(o, before[j].triangles@));
                        }
                    }
                    assert forall|j: int| 0 <= j < n implies slot_outcome(trials, old_pool@, #[trigger] self.pool@[j], j, j < k + 1) by {
                        if j != k {
                            assert(self.pool@[j] == before[j]);
                        }
                    }
                }
            } else {
                proof {
                    assert forall|j: int| 0 <= j < n implies slot_outcome(trials, old_pool@, #[trigger] self.pool@[j], j, j < k + 1) by {}
                }
            }
            k = k + 1;
        }
        let ghost retained = self.pool@;
        proof {
            self.lemma_ready_uniform();
        }
        if self.num_objectives == 1 {
            self.single_objective_selection();
            proof {
                let order = choose|o: Seq<usize>| crate::crowding::permutes(retained, self.pool@, o);
                assert forall|j: int| 0 <= j < old_pool@.len() implies self.pool@[0].fitness@[0] <= #[trigger] old_pool@[j].fitness@[0] by {
                    assert(crate::sorting::occurs(order, j));
                    let k = choose|k: int| 0 <= k < order.len() && order[k] == j;
                    assert(same_candidate(self.pool@[k], retained[j]));
                    assert(self.pool@[0].fitness@[0] <= self.pool@[k].fitness@[0]);
                    assert(!lex_less(old_pool@[j].fitness@, retained[j].fitness@));
                    assert(old_pool@[j].shaped(self.num_triangles as nat, self.num_objectives as nat, self.target_width as int, self.target_height as int));
                    assert(retained[j].fitness@.len() == 1);
                    assert(lex_less_from(old_pool@[j].fitness@, retained[j].fitness@, 0) == lex_less(old_pool@[j].fitness@, retained[j].fitness@));
                }
                assert forall|q: int| 0 <= q < self.pool@.len() implies #[trigger] no_worse_than_some(old_pool@, self.pool@[q]) by {
                    assert(holds_candidate(retained, self.pool@[q]));
                    let j = choose|j: int| 0 <= j < retained.len() && same_candidate(retained[j], self.pool@[q]);
                    assert(!lex_less(old_pool@[j].fitness@, retained[j].fitness@));
                    assert(old_pool@[j].shaped(self.num_triangles as nat, self.num_objectives as nat, self.target_width as int, self.target_height as int));
                    assert(retained[j].fitness@.len() == 1);
                    assert(lex_less_from(old_pool@[j].fitness@, retained[j].fitness@, 0) == lex_less(old_pool@[j].fitness@, retained[j].fitness@));
                }
                assert forall|q: int, o: int|
                    #![trigger self.pool@[q].fitness@[o]]
                    0 <= q < self.pool@.len() && 0 <= o < self.num_objectives implies self.pool@[q].fitness@[o] == self.score_of(o, self.pool@[q].triangles@) by {
                    assert(holds_candidate(retained, self.pool@[q]));
                    let j = choose|j: int| 0 <= j < retained.len() && same_candidate(retained[j], self.pool@[q]);
                    assert(retained[j].fitness@[o] == self.score_of(o, retained[j].triangles@));
                }
            }
        } else {
            self.nsga_selection(old_pool);
            proof {
                assert forall|q: int, o: int|
                    #![trigger self.pool@[q].fitness@[o]]
                    0 <= q < self.pool@.len() && 0 <= o < self.num_objectives implies self.pool@[q].fitness@[o] == self.score_of(o, self.pool@[q].triangles@) by {
                    let both = retained + old_pool@;
                    assert(holds_candidate(both, self.pool@[q]));
                    let j = choose|j: int| 0 <= j < both.len() && same_candidate(both[j], self.pool@[q]);
                    if j < retained.len() {
                        assert(retained[j].fitness@[o] == self.score_of(o, retained[j].triangles@));
                    } else {
                        let h = j - retained.len();
                        assert(old_pool@[h].fitness@[o] == self.score_of(o, old_pool@[h].triangles@));
                    }
                }
            }
        }
        proof {
            assert forall|q: int| 0 <= q < self.pool@.len() implies #[trigger] survivor_of(trials, old_pool@, self.pool@[q]) by {
                lemma_survivor(trials, old_pool@, retained, self.pool@[q]);
            }
        }
    }

    /// Per objective, the mean fitness of the pool in fitness units, rounded down; all
    /// zeros for an empty pool.
    pub fn fitness_mean(&self) -> (means: Vec<i64>)
        requires
            uniform(self.pool@, self.num_objectives as int),
        ensures
            means@.len() == self.num_objectives,
            forall|o: int|
                0 <= o < self.num_objectives ==> #[trigger] means@[o] == if self.pool@.len() == 0 {
                    0
                } else {
                    column_sum(self.pool@, o, self.pool@.len() as int) / (self.pool@.len() as int)
                },
    {
        let n = self.pool.len();
        let m = self.num_objectives;
        let mut means: Vec<i64> = Vec::new();
        let mut o: usize = 0;
        while o < m
            invariant
                n == self.pool@.len(),
                m == self.num_objectives,
                uniform(self.pool@, m as int),
                o <= m,
                means@.len() == o,
                forall|q: int|
                    0 <= q < o ==> #[trigger] means@[q] == if n == 0 {
                        0
                    } else {
                        column_sum(self.pool@, q, n as int) / (n as int)
                    },
            decreases m - o,
        {
            if n == 0 {
                means.push(0);
            } else {
                let mut sum: i128 = 0;
                let mut k: usize = 0;
                while k < n
                    invariant
                        n == self.pool@.len(),
                        o < m,
                        uniform(self.pool@, m as int),
                        k <= n,
                        sum == column_sum(self.pool@, o as int, k as int),
                        k * i64::MIN <= sum <= k * i64::MAX,
                    decreases n - k,
                {
                    let v = self.pool[k].fitness[o];
                    assert(k * i64::MIN + i64::MIN == (k + 1) * i64::MIN && k * i64::MAX + i64::MAX == (k + 1) * i64::MAX) by (nonlinear_arith);
                    assert((k + 1) * i64::MAX <= 0x1_0000_0000_0000_0000 * i64::MAX && (k + 1) * i64::MIN >= 0x1_0000_0000_0000_0000 * i64::MIN) by (nonlinear_arith)
                        requires
                            k < n,
                            n <= usize::MAX,
                    ;
                    sum = sum + v as i128;
                    k = k + 1;
                }
                let d = n as i128;
                let mean = if sum >= 0 {
                    sum / d
                } else {
                    -((-(sum + 1)) / d) - 1
                };
                proof {
                    lemma_floor_mean(sum as int, d as int, mean as int);
                }
                means.push(mean as i64);
            }
            o = o + 1;
        }
        means
    }

    /// Fills the empty pool with `pool_size` random candidates and scores them.
    pub fn generate_initial_pool(&mut self)
        requires
            old(self).settings_ok(),
            old(self).pool@.len() == 0,
        ensures
            final(self).ready(),
            final(self).same_settings(*old(self)),
            final(self).evaluated(final(self).pool@),
            forall|k: int, t: int|
                0 <= k < final(self).pool@.len() && 0 <= t < final(self).pool@[k].triangles@.len() ==> distinct_vertices(
                    #[trigger] final(self).pool@[k].triangles@[t],
                ),
    {
        let mut i: usize = 0;
        while i < self.pool_size
            invariant
                self.settings_ok(),
                self.same_settings(*old(self)),
                i <= self.pool_size,
                self.pool@.len() == i,
                self.pool_shaped(self.pool@),
                forall|q: int, t: int|
                    0 <= q < i && 0 <= t < self.pool@[q].triangles@.len() ==> distinct_vertices(#[trigger] self.pool@[q].triangles@[t]),
            decreases self.pool_size - i,
        {
            let v = Vector::generate_random_vector(self.target_width, self.target_height, self.num_triangles, self.num_objectives);
            self.pool.push(v);
            i = i + 1;
        }
        let ghost filled = self.pool@;
        self.calculate_fitness_for_population();
        proof {
            assert forall|q: int, t: int|
                0 <= q < self.pool@.len() && 0 <= t < self.pool@[q].triangles@.len() implies distinct_vertices(
                    #[trigger] self.pool@[q].triangles@[t],
                ) by {
                assert(self.pool@[q].triangles@ == filled[q].triangles@);
            }
        }
    }
}

} // verus!
