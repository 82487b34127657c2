//! Crowding distance of the members of one front.

use crate::pareto::uniform;
use crate::sorting::{is_permutation, occurs, sorted_order};
use crate::vector::Vector;
use vstd::pervasive::VecAdditionalExecFns;
use vstd::prelude::*;

verus! {

/// A crowding distance counts millionths of the objective's range.
pub const CROWDING_UNIT: i128 = 1_000_000;

/// The distance of a front's extreme members.
pub const INFINITE_DISTANCE: u64 = 0xffff_ffff_ffff_ffff;

/// The two candidates have the same triangles, fitness and rank (the crowding distance may
/// differ).
pub open spec fn same_candidate(a: Vector, b: Vector) -> bool {
    &&& a.triangles@ == b.triangles@
    &&& a.fitness@ == b.fitness@
    &&& a.rank == b.rank
}

/// `b` holds the candidates of `a` (up to crowding distance) in the order `order`:
/// candidate `k` of `b` is candidate `order[k]` of `a`, each taken once.
pub open spec fn permutes(a: Seq<Vector>, b: Seq<Vector>, order: Seq<usize>) -> bool {
    &&& b.len() == a.len()
    &&& is_permutation(order, a.len() as int)
    &&& forall|k: int| 0 <= k < b.len() ==> same_candidate(#[trigger] b[k], a[order[k] as int])
}

/// `b` is `a` reordered, up to crowding distances.
pub open spec fn permuted(a: Seq<Vector>, b: Seq<Vector>) -> bool {
    exists|order: Seq<usize>| permutes(a, b, order)
}

/// `d + c`, stuck at `INFINITE_DISTANCE` from there on.
pub open spec fn added(d: u64, c: int) -> u64 {
    if d + c >= INFINITE_DISTANCE {
        INFINITE_DISTANCE
    } else {
        (d + c) as u64
    }
}

/// The range of objective `obj` over a front sorted by it.
pub open spec fn objective_span(front: Seq<Vector>, obj: int) -> int {
    front[front.len() - 1].fitness@[obj] - front[0].fitness@[obj]
}

/// The share of objective `obj` in the distance of inner member `k` of a front sorted by
/// it: the gap between its neighbours over the range, in `CROWDING_UNIT`s, rounded down.
pub open spec fn neighbour_share(front: Seq<Vector>, obj: int, k: int) -> int {
    (front[k + 1].fitness@[obj] - front[k - 1].fitness@[obj]) * CROWDING_UNIT / objective_span(front, obj)
}

/// One objective's pass of crowding distance, from `a` to `b` in the order `order`: `b` is
/// sorted by the objective, its two ends are infinite, and each inner member adds its
/// `neighbour_share` to its distance, or nothing where the range is zero.
pub open spec fn crowded_pass(a: Seq<Vector>, b: Seq<Vector>, obj: int, order: Seq<usize>) -> bool {
    &&& permutes(a, b, order)
    &&& forall|x: int, y: int| 0 <= x <= y < b.len() ==> b[x].fitness@[obj] <= b[y].fitness@[obj]
    &&& b[0].crowding_distance == INFINITE_DISTANCE
    &&& b[b.len() - 1].crowding_distance == INFINITE_DISTANCE
    &&& forall|k: int|
        0 < k < b.len() - 1 ==> #[trigger] b[k].crowding_distance == if objective_span(b, obj) == 0 {
            a[order[k] as int].crowding_distance
        } else {
            added(a[order[k] as int].crowding_distance, neighbour_share(b, obj, k))
        }
    &&& forall|k: int|
        0 < k < b.len() - 1 && objective_span(b, obj) != 0 ==> 0 <= #[trigger] neighbour_share(b, obj, k) <= CROWDING_UNIT
}

/// Pass `o` of the stages is a `crowded_pass` for objective `o`.
pub open spec fn pass_ok(stages: Seq<Seq<Vector>>, o: int) -> bool {
    exists|order: Seq<usize>| #[trigger] crowded_pass(stages[o], stages[o + 1], o, order)
}

/// The whole crowding-distance computation as stages: stage 0 is the front with every
/// distance zero, stage `o + 1` follows from stage `o` by objective `o`'s pass, and the last
/// stage is the result.
pub open spec fn crowding_stages(front: Seq<Vector>, stages: Seq<Seq<Vector>>, result: Seq<Vector>, m: int) -> bool {
    &&& stages.len() == m + 1
    &&& stages[0].len() == front.len()
    &&& forall|k: int| 0 <= k < front.len() ==> (#[trigger] stages[0][k]).crowding_distance == 0 && same_candidate(stages[0][k], front[k])
    &&& forall|o: int| 0 <= o < m ==> #[trigger] pass_ok(stages, o)
    &&& stages[m] == result
}

/// A single objective's crowding distance from scratch, from `a` to `b` in the order
/// `order`: `b` is sorted by the objective, its ends are infinite, and each inner member has
/// its `neighbour_share` as distance, or zero where the range is zero.
pub open spec fn crowded_once(a: Seq<Vector>, b: Seq<Vector>, order: Seq<usize>) -> bool {
    &&& permutes(a, b, order)
    &&& forall|x: int, y: int| 0 <= x <= y < b.len() ==> b[x].fitness@[0] <= b[y].fitness@[0]
    &&& b[0].crowding_distance == INFINITE_DISTANCE
    &&& b[b.len() - 1].crowding_distance == INFINITE_DISTANCE
    &&& forall|k: int|
        0 < k < b.len() - 1 ==> #[trigger] b[k].crowding_distance == if objective_span(b, 0) == 0 {
            0
        } else {
            neighbour_share(b, 0, k)
        }
}

/// Composing two reorderings gives a reordering.
pub proof fn lemma_permutes_compose(a: Seq<Vector>, b: Seq<Vector>, c: Seq<Vector>, o1: Seq<usize>, o2: Seq<usize>)
    requires
        permutes(a, b, o1),
        permutes(b, c, o2),
    ensures
        permutes(a, c, Seq::new(o2.len(), |k: int| o1[o2[k] as int])),
{
    let n = a.len() as int;
    let o = Seq::new(o2.len(), |k: int| o1[o2[k] as int]);
    assert forall|k: int| 0 <= k < n implies #[trigger] o[k] < n by {
        assert(o2[k] < n);
    }
    assert forall|x: int, y: int| 0 <= x < y < n implies o[x] != o[y] by {
        assert(o2[x] != o2[y]);
        if o2[x] < o2[y] {
            assert(o1[o2[x] as int] != o1[o2[y] as int]);
        } else {
            assert(o1[o2[y] as int] != o1[o2[x] as int]);
        }
    }
    assert forall|j: int| 0 <= j < n implies #[trigger] occurs(o, j) by {
        assert(occurs(o1, j));
        let k1 = choose|k1: int| 0 <= k1 < o1.len() && o1[k1] == j;
        assert(occurs(o2, k1));
        let k = choose|k: int| 0 <= k < o2.len() && o2[k] == k1;
        assert(o[k] == j);
    }
    assert forall|k: int| 0 <= k < c.len() implies same_candidate(#[trigger] c[k], a[o[k] as int]) by {
        assert(same_candidate(c[k], b[o2[k] as int]));
        assert(o2[k] < n);
        assert(same_candidate(b[o2[k] as int], a[o1[o2[k] as int] as int]));
    }
}

/// Candidate `k` of the front has the least value of objective `o`.
pub open spec fn least_at(front: Seq<Vector>, o: int, k: int) -> bool {
    forall|j: int| 0 <= j < front.len() ==> front[k].fitness@[o] <= #[trigger] front[j].fitness@[o]
}

/// Candidate `k` of the front has the greatest value of objective `o`.
pub open spec fn greatest_at(front: Seq<Vector>, o: int, k: int) -> bool {
    forall|j: int| 0 <= j < front.len() ==> #[trigger] front[j].fitness@[o] <= front[k].fitness@[o]
}

/// For objective `o`, a candidate with its least value and one with its greatest have an
/// infinite crowding distance.
pub open spec fn extremes_infinite(front: Seq<Vector>, o: int) -> bool {
    &&& exists|k: int| 0 <= k < front.len() && least_at(front, o, k) && front[k].crowding_distance == INFINITE_DISTANCE
    &&& exists|k: int| 0 <= k < front.len() && greatest_at(front, o, k) && front[k].crowding_distance == INFINITE_DISTANCE
}

/// `b` holds the candidates of `a` in some order, and `a` those of `b`.
pub open spec fn rearranged(a: Seq<Vector>, b: Seq<Vector>) -> bool {
    &&& a.len() == b.len()
    &&& forall|k: int| 0 <= k < b.len() ==> #[trigger] holds(a, b[k])
    &&& forall|j: int| 0 <= j < a.len() ==> #[trigger] holds(b, a[j])
}

/// Some candidate of `s` is `v`.
pub open spec fn holds(s: Seq<Vector>, v: Vector) -> bool {
    exists|k: int| 0 <= k < s.len() && s[k] == v
}

fn placeholder() -> (v: Vector) {
    Vector { triangles: Vec::new(), fitness: Vec::new(), rank: 0, crowding_distance: 0 }
}

/// Moves the candidates into the given order: candidate `k` of the result is candidate
/// `order[k]` of the input.
pub(crate) fn reorder(front: Vec<Vector>, order: &Vec<usize>) -> (r: Vec<Vector>)
    requires
        is_permutation(order@, front@.len() as int),
    ensures
        r@.len() == front@.len(),
        forall|k: int| 0 <= k < r@.len() ==> #[trigger] r@[k] == front@[order@[k] as int],
        rearranged(front@, r@),
{
    let ghost orig = front@;
    let mut front = front;
    let n = order.len();
    let mut r: Vec<Vector> = Vec::new();
    let mut k: usize = 0;
    while k < n
        invariant
            is_permutation(order@, orig.len() as int),
            n == order@.len(),
            front@.len() == orig.len(),
            k <= n,
            r@.len() == k,
            forall|a: int| 0 <= a < k ==> #[trigger] r@[a] == orig[order@[a] as int],
            forall|a: int| k <= a < n ==> front@[#[trigger] order@[a] as int] == orig[order@[a] as int],
        decreases n - k,
    {
        let mut taken = placeholder();
        let pos = order[k];
        front.set_and_swap(pos, &mut taken);
        r.push(taken);
        proof {
            assert forall|a: int| k + 1 <= a < n implies front@[#[trigger] order@[a] as int] == orig[order@[a] as int] by {
                assert(order@[a] != order@[k as int]);
            }
        }
        k = k + 1;
    }
    proof {
        assert forall|j: int| 0 <= j < orig.len() implies #[trigger] holds(r@, orig[j]) by {
            assert(occurs(order@, j));
            let k = choose|k: int| 0 <= k < order@.len() && order@[k] == j;
            assert(r@[k] == orig[j]);
        }
        assert forall|k: int| 0 <= k < r@.len() implies #[trigger] holds(orig, r@[k]) by {
            assert(r@[k] == orig[order@[k] as int]);
        }
    }
    r
}

/// Adds `c` to a distance, staying at `INFINITE_DISTANCE` once there.
fn add_distance(d: u64, c: u64) -> (r: u64)
    ensures
        d == INFINITE_DISTANCE ==> r == INFINITE_DISTANCE,
        r >= d,
        r == added(d, c as int),
{
    if d > INFINITE_DISTANCE - c {
        INFINITE_DISTANCE
    } else {
        d + c
    }
}

fn with_distance(front: &mut Vec<Vector>, i: usize, d: u64)
    requires
        i < old(front)@.len(),
    ensures
        final(front)@.len() == old(front)@.len(),
        forall|k: int| 0 <= k < final(front)@.len() && k != i ==> #[trigger] final(front)@[k] == old(front)@[k],
        same_candidate(final(front)@[i as int], old(front)@[i as int]),
        final(front)@[i as int].crowding_distance == d,
        final(front)@[i as int].rank == old(front)@[i as int].rank,
{
    let mut v = placeholder();
    front.set_and_swap(i, &mut v);
    v.crowding_distance = d;
    front.set_and_swap(i, &mut v);
}

/// Only crowding distances changed, none of them decreased.
pub open spec fn distances_grown(a: Seq<Vector>, b: Seq<Vector>) -> bool {
    &&& a.len() == b.len()
    &&& forall|k: int|
        0 <= k < a.len() ==> same_candidate(#[trigger] b[k], a[k]) && b[k].crowding_distance >= a[k].crowding_distance
}

proof fn lemma_grown_keeps_extremes(a: Seq<Vector>, b: Seq<Vector>, o: int)
    requires
        distances_grown(a, b),
        extremes_infinite(a, o),
    ensures
        extremes_infinite(b, o),
{
    let k1 = choose|k: int| 0 <= k < a.len() && least_at(a, o, k) && a[k].crowding_distance == INFINITE_DISTANCE;
    let k2 = choose|k: int| 0 <= k < a.len() && greatest_at(a, o, k) && a[k].crowding_distance == INFINITE_DISTANCE;
    assert(same_candidate(b[k1], a[k1]));
    assert(same_candidate(b[k2], a[k2]));
    assert forall|j: int| 0 <= j < b.len() implies b[k1].fitness@[o] <= #[trigger] b[j].fitness@[o] by {
        assert(same_candidate(b[j], a[j]));
    }
    assert forall|j: int| 0 <= j < b.len() implies #[trigger] b[j].fitness@[o] <= b[k2].fitness@[o] by {
        assert(same_candidate(b[j], a[j]));
    }
    assert(least_at(b, o, k1) && b[k1].crowding_distance == INFINITE_DISTANCE);
    assert(greatest_at(b, o, k2) && b[k2].crowding_distance == INFINITE_DISTANCE);
}

proof fn lemma_rearranged_keeps_extremes(a: Seq<Vector>, b: Seq<Vector>, o: int)
    requires
        rearranged(a, b),
        extremes_infinite(a, o),
    ensures
        extremes_infinite(b, o),
{
    let k1 = choose|k: int| 0 <= k < a.len() && least_at(a, o, k) && a[k].crowding_distance == INFINITE_DISTANCE;
    let k2 = choose|k: int| 0 <= k < a.len() && greatest_at(a, o, k) && a[k].crowding_distance == INFINITE_DISTANCE;
    assert(holds(b, a[k1]));
    assert(holds(b, a[k2]));
    let n1 = choose|k: int| 0 <= k < b.len() && b[k] == a[k1];
    let n2 = choose|k: int| 0 <= k < b.len() && b[k] == a[k2];
    assert forall|j: int| 0 <= j < b.len() implies b[n1].fitness@[o] <= #[trigger] b[j].fitness@[o] by {
        assert(holds(a, b[j]));
        let i = choose|i: int| 0 <= i < a.len() && b[j] == a[i];
        assert(a[k1].fitness@[o] <= a[i].fitness@[o]);
    }
    assert forall|j: int| 0 <= j < b.len() implies #[trigger] b[j].fitness@[o] <= b[n2].fitness@[o] by {
        assert(holds(a, b[j]));
        let i = choose|i: int| 0 <= i < a.len() && b[j] == a[i];
        assert(a[i].fitness@[o] <= a[k2].fitness@[o]);
    }
    assert(least_at(b, o, n1) && b[n1].crowding_distance == INFINITE_DISTANCE);
    assert(greatest_at(b, o, n2) && b[n2].crowding_distance == INFINITE_DISTANCE);
}

/// Some candidate of `s` has the triangles and fitness of `v`.
pub open spec fn holds_candidate(s: Seq<Vector>, v: Vector) -> bool {
    exists|k: int| 0 <= k < s.len() && same_candidate(s[k], v)
}

/// `b` is as long as `a` and each of its candidates has the triangles and fitness of one
/// of `a`.
pub open spec fn drawn_from(a: Seq<Vector>, b: Seq<Vector>) -> bool {
    &&& a.len() == b.len()
    &&& forall|k: int| 0 <= k < b.len() ==> #[trigger] holds_candidate(a, b[k])
}

/// Sorts the front by objective `obj` and adds that objective's share to each member's
/// crowding distance: the two ends become infinite; where the objective's range is not
/// zero, each inner member adds the gap between its neighbours over the range, in
/// `CROWDING_UNIT`s.
fn crowd_by_objective(front: &mut Vec<Vector>, obj: usize, num_objectives: usize)
    requires
        obj < num_objectives,
        uniform(old(front)@, num_objectives as int),
        old(front)@.len() > 0,
    ensures
        uniform(final(front)@, num_objectives as int),
        drawn_from(old(front)@, final(front)@),
        extremes_infinite(final(front)@, obj as int),
        forall|o: int| extremes_infinite(old(front)@, o) ==> #[trigger] extremes_infinite(final(front)@, o),
        exists|order: Seq<usize>| #[trigger] crowded_pass(old(front)@, final(front)@, obj as int, order),
{
    let ghost start = front@;
    let n = front.len();
    let mut keys: Vec<i128> = Vec::new();
    let mut k: usize = 0;
    while k < n
        invariant
            n == front@.len(),
            obj < num_objectives,
            uniform(front@, num_objectives as int),
            k <= n,
            keys@.len() == k,
            forall|a: int| 0 <= a < k ==> #[trigger] keys@[a] == front@[a].fitness@[obj as int],
        decreases n - k,
    {
        keys.push(front[k].fitness[obj] as i128);
        k = k + 1;
    }
    let order = sorted_order(&keys);
    let mut taken: Vec<Vector> = Vec::new();
    std::mem::swap(front, &mut taken);
    let mut sorted = reorder(taken, &order);
    let ghost arranged = sorted@;
    proof {
        assert forall|a: int| 0 <= a < n implies (#[trigger] sorted@[a]).fitness@[obj as int] == keys@[order@[a] as int] by {}
        assert forall|a: int| 0 <= a < n implies (#[trigger] sorted@[a]).fitness@.len() == num_objectives by {}
        assert forall|a: int, b: int|
            0 <= a <= b < n implies arranged[a].fitness@[obj as int] <= arranged[b].fitness@[obj as int] by {
            assert(keys@[order@[a] as int] <= keys@[order@[b] as int]);
        }
        assert forall|o: int| extremes_infinite(start, o) implies #[trigger] extremes_infinite(arranged, o) by {
            lemma_rearranged_keeps_extremes(start, arranged, o);
        }
    }
    let last = n - 1;
    let ghost order_seq = order@;
    let low = sorted[0].fitness[obj];
    let high = sorted[last].fitness[obj];
    with_distance(&mut sorted, 0, INFINITE_DISTANCE);
    with_distance(&mut sorted, last, INFINITE_DISTANCE);
    let range = high as i128 - low as i128;
    if range != 0 && n > 2 {
        let mut i: usize = 1;
        while i < last
            invariant
                n == sorted@.len(),
                last == n - 1,
                1 <= i <= last,
                range > 0,
                range == high - low,
                distances_grown(arranged, sorted@),
                sorted@[0].crowding_distance == INFINITE_DISTANCE,
                sorted@[last as int].crowding_distance == INFINITE_DISTANCE,
                forall|a: int| 0 <= a < n ==> (#[trigger] arranged[a]).fitness@.len() == num_objectives,
                obj < num_objectives,
                low == arranged[0].fitness@[obj as int],
                high == arranged[last as int].fitness@[obj as int],
                forall|a: int, b: int|
                    0 <= a <= b < n ==> arranged[a].fitness@[obj as int] <= arranged[b].fitness@[obj as int],
                forall|a: int|
                    1 <= a < i ==> #[trigger] sorted@[a].crowding_distance == added(arranged[a].crowding_distance, neighbour_share(arranged, obj as int, a))
                        && 0 <= neighbour_share(arranged, obj as int, a) <= CROWDING_UNIT,
                forall|a: int| i <= a < last ==> #[trigger] sorted@[a].crowding_distance == arranged[a].crowding_distance,
            decreases last - i,
        {
            let next = sorted[i + 1].fitness[obj] as i128;
            let prev = sorted[i - 1].fitness[obj] as i128;
            proof {
                assert(same_candidate(sorted@[i + 1], arranged[i + 1]));
                assert(same_candidate(sorted@[i - 1], arranged[i - 1]));
                assert(arranged[i - 1].fitness@[obj as int] <= arranged[i + 1].fitness@[obj as int]);
                assert(arranged[0].fitness@[obj as int] <= arranged[i - 1].fitness@[obj as int]);
                assert(arranged[i + 1].fitness@[obj as int] <= arranged[last as int].fitness@[obj as int]);
            }
            let gap = next - prev;
            assert(gap * CROWDING_UNIT <= range * CROWDING_UNIT) by (nonlinear_arith)
                requires
                    0 <= gap <= range,
            ;
            let share = (gap as u128 * CROWDING_UNIT as u128) / range as u128;
            assert(share <= CROWDING_UNIT) by (nonlinear_arith)
                requires
                    0 <= gap <= range,
                    range > 0,
                    share as int == (gap * CROWDING_UNIT) as int / (range as int),
            ;
            assert(share as int == neighbour_share(arranged, obj as int, i as int));
            assert(sorted@[i as int].crowding_distance == arranged[i as int].crowding_distance);
            let d = add_distance(sorted[i].crowding_distance, share as u64);
            with_distance(&mut sorted, i, d);
            i = i + 1;
        }
    }
    proof {
        assert(least_at(sorted@, obj as int, 0)) by {
            assert forall|j: int| 0 <= j < sorted@.len() implies sorted@[0].fitness@[obj as int] <= #[trigger] sorted@[j].fitness@[obj as int] by {
                assert(same_candidate(sorted@[j], arranged[j]));
                assert(same_candidate(sorted@[0], arranged[0]));
            }
        }
        assert(greatest_at(sorted@, obj as int, last as int)) by {
            assert forall|j: int| 0 <= j < sorted@.len() implies #[trigger] sorted@[j].fitness@[obj as int] <= sorted@[last as int].fitness@[obj as int] by {
                assert(same_candidate(sorted@[j], arranged[j]));
                assert(same_candidate(sorted@[last as int], arranged[last as int]));
            }
        }
        assert forall|o: int| extremes_infinite(start, o) implies #[trigger] extremes_infinite(sorted@, o) by {
            lemma_grown_keeps_extremes(arranged, sorted@, o);
        }
        assert forall|a: int| 0 <= a < n implies (#[trigger] sorted@[a]).fitness@.len() == num_objectives by {
            assert(same_candidate(sorted@[a], arranged[a]));
        }
        assert forall|a: int| 0 <= a < n implies same_candidate(#[trigger] sorted@[a], start[order_seq[a] as int]) by {
            assert(same_candidate(sorted@[a], arranged[a]));
        }
        assert(objective_span(sorted@, obj as int) == objective_span(arranged, obj as int)) by {
            assert(same_candidate(sorted@[0], arranged[0]));
            assert(same_candidate(sorted@[last as int], arranged[last as int]));
        }
        assert forall|k: int| 0 < k < n - 1 implies neighbour_share(#[trigger] sorted@, obj as int, k) == neighbour_share(arranged, obj as int, k) by {
            assert(same_candidate(sorted@[k + 1], arranged[k + 1]));
            assert(same_candidate(sorted@[k - 1], arranged[k - 1]));
        }
        assert forall|x: int, y: int| 0 <= x <= y < n implies sorted@[x].fitness@[obj as int] <= sorted@[y].fitness@[obj as int] by {
            assert(same_candidate(sorted@[x], arranged[x]));
            assert(same_candidate(sorted@[y], arranged[y]));
        }
        assert forall|k: int| 0 < k < n - 1 implies #[trigger] sorted@[k].crowding_distance == if objective_span(sorted@, obj as int) == 0 {
            start[order_seq[k] as int].crowding_distance
        } else {
            added(start[order_seq[k] as int].crowding_distance, neighbour_share(sorted@, obj as int, k))
        } by {
            assert(arranged[k] == start[order_seq[k] as int]);
            assert(neighbour_share(sorted@, obj as int, k) == neighbour_share(arranged, obj as int, k));
        }
        assert forall|k: int| 0 < k < n - 1 && objective_span(sorted@, obj as int) != 0 implies 0 <= #[trigger] neighbour_share(sorted@, obj as int, k) <= CROWDING_UNIT by {
            assert(neighbour_share(sorted@, obj as int, k) == neighbour_share(arranged, obj as int, k));
        }
        assert(crowded_pass(start, sorted@, obj as int, order_seq));
        assert forall|a: int| 0 <= a < n implies #[trigger] holds_candidate(start, sorted@[a]) by {
            assert(same_candidate(sorted@[a], arranged[a]));
            assert(holds(start, arranged[a]));
            let j = choose|j: int| 0 <= j < start.len() && start[j] == arranged[a];
            assert(same_candidate(start[j], sorted@[a]));
        }
    }
    *front = sorted;
}

proof fn lemma_drawn_from_trans(a: Seq<Vector>, b: Seq<Vector>, c: Seq<Vector>)
    requires
        drawn_from(a, b),
        drawn_from(b, c),
    ensures
        drawn_from(a, c),
{
    assert forall|k: int| 0 <= k < c.len() implies #[trigger] holds_candidate(a, c[k]) by {
        assert(holds_candidate(b, c[k]));
        let j = choose|j: int| 0 <= j < b.len() && same_candidate(b[j], c[k]);
        assert(holds_candidate(a, b[j]));
        let i = choose|i: int| 0 <= i < a.len() && same_candidate(a[i], b[j]);
        assert(same_candidate(a[i], c[k]));
    }
}

/// NSGA-II crowding distance of every member of a front, objective by objective (see
/// `crowd_by_objective`); the front ends up sorted by the last objective. For every
/// objective, a member with its least value and one with its greatest get an infinite
/// distance.
pub fn calculate_crowding_distance(front: &mut Vec<Vector>, num_objectives: usize)
    requires
        uniform(old(front)@, num_objectives as int),
        old(front)@.len() > 0,
    ensures
        uniform(final(front)@, num_objectives as int),
        drawn_from(old(front)@, final(front)@),
        permuted(old(front)@, final(front)@),
        forall|o: int| 0 <= o < num_objectives ==> #[trigger] extremes_infinite(final(front)@, o),
        num_objectives == 0 ==> forall|k: int| 0 <= k < final(front)@.len() ==> #[trigger] final(front)@[k].crowding_distance == 0,
        num_objectives == 1 ==> exists|order: Seq<usize>| #[trigger] crowded_once(old(front)@, final(front)@, order),
        exists|stages: Seq<Seq<Vector>>| #[trigger] crowding_stages(old(front)@, stages, final(front)@, num_objectives as int),
{
    let ghost start = front@;
    let n = front.len();
    let mut i: usize = 0;
    while i < n
        invariant
            n == front@.len(),
            n == start.len(),
            i <= n,
            forall|k: int| 0 <= k < n ==> same_candidate(#[trigger] front@[k], start[k]),
            forall|k: int| 0 <= k < i ==> #[trigger] front@[k].crowding_distance == 0,
        decreases n - i,
    {
        with_distance(front, i, 0);
        i = i + 1;
    }
    let ghost identity = Seq::new(n as nat, |k: int| k as usize);
    let ghost reset = front@;
    let ghost mut stages: Seq<Seq<Vector>> = seq![front@];
    proof {
        assert forall|j: int| 0 <= j < n implies #[trigger] occurs(identity, j) by {
            assert(identity[j] == j);
        }
        assert(permutes(start, front@, identity));

        assert forall|k: int| 0 <= k < n implies #[trigger] holds_candidate(start, front@[k]) by {
            assert(same_candidate(start[k], front@[k]));
        }
        assert forall|k: int| 0 <= k < n implies (#[trigger] front@[k]).fitness@.len() == num_objectives by {
            assert(same_candidate(front@[k], start[k]));
        }
    }
    let mut obj: usize = 0;
    while obj < num_objectives
        invariant
            obj <= num_objectives,
            front@.len() == n,
            n > 0,
            uniform(front@, num_objectives as int),
            drawn_from(start, front@),
            permuted(start, front@),
            forall|o: int| 0 <= o < obj ==> #[trigger] extremes_infinite(front@, o),
            forall|k: int| 0 <= k < n ==> (#[trigger] reset[k]).crowding_distance == 0 && same_candidate(reset[k], start[k]),
            reset.len() == n,
            obj == 0 ==> front@ == reset,
            obj == 1 && num_objectives == 1 ==> exists|order: Seq<usize>| #[trigger] crowded_once(start, front@, order),
            stages.len() == obj + 1,
            stages[0] == reset,
            stages[obj as int] == front@,
            forall|o: int| 0 <= o < obj ==> #[trigger] pass_ok(stages, o),
        decreases num_objectives - obj,
    {
        let ghost before = front@;
        crowd_by_objective(front, obj, num_objectives);
        proof {
            lemma_drawn_from_trans(start, before, front@);
            let o1 = choose|o: Seq<usize>| permutes(start, before, o);
            let o2 = choose|o: Seq<usize>| crowded_pass(before, front@, obj as int, o);
            lemma_permutes_compose(start, before, front@, o1, o2);
            let old_stages = stages;
            stages = stages.push(front@);
            assert forall|o: int| 0 <= o < obj + 1 implies #[trigger] pass_ok(stages, o) by {
                if o < obj {
                    assert(pass_ok(old_stages, o));
                    assert(stages[o] == old_stages[o]);
                    assert(stages[o + 1] == old_stages[o + 1]);
                } else {
                    assert(stages[o] == before);
                    assert(crowded_pass(stages[o], stages[o + 1], o, o2));
                }
            }
            if obj == 0 && num_objectives == 1 {
                assert(before == reset);
                assert forall|k: int| 0 <= k < n implies same_candidate(#[trigger] front@[k], start[o2[k] as int]) by {
                    assert(same_candidate(front@[k], before[o2[k] as int]));
                    assert(o2[k] < n);
                    assert(same_candidate(reset[o2[k] as int], start[o2[k] as int]));
                }
                assert forall|k: int| 0 < k < n - 1 implies #[trigger] front@[k].crowding_distance == if objective_span(front@, 0) == 0 {
                    0
                } else {
                    neighbour_share(front@, 0, k)
                } by {
                    assert(o2[k] < n);
                    assert(reset[o2[k] as int].crowding_distance == 0);
                }
                assert(crowded_once(start, front@, o2));
            }
            assert forall|o: int| 0 <= o < obj + 1 implies #[trigger] extremes_infinite(front@, o) by {
                if o < obj {
                    assert(extremes_infinite(before, o));
                }
            }
        }
        obj = obj + 1;
    }
    proof {
        assert(crowding_stages(start, stages, front@, num_objectives as int));
    }
}

} // verus!
