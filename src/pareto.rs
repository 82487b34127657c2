//! Fitness comparisons: lexicographic order, Pareto dominance and non-dominated fronts.

use crate::vector::Vector;
use vstd::prelude::*;

verus! {

/// `a` comes strictly before `b` in lexicographic order from position `i` on (a proper
/// prefix comes first).
pub open spec fn lex_less_from(a: Seq<i64>, b: Seq<i64>, i: int) -> bool
    decreases a.len() - i,
{
    if i < 0 || i >= a.len() {
        0 <= i < b.len()
    } else if i >= b.len() {
        false
    } else if a[i] < b[i] {
        true
    } else if a[i] > b[i] {
        false
    } else {
        lex_less_from(a, b, i + 1)
    }
}

/// `a` comes strictly before `b` in lexicographic order.
pub open spec fn lex_less(a: Seq<i64>, b: Seq<i64>) -> bool {
    lex_less_from(a, b, 0)
}

/// Lexicographic comparison of two fitness vectors: `a` strictly before `b`.
pub fn fitness_less(a: &Vec<i64>, b: &Vec<i64>) -> (r: bool)
    ensures
        r == lex_less(a@, b@),
{
    let mut i: usize = 0;
    while i < a.len() && i < b.len()
        invariant
            i <= a@.len(),
            i <= b@.len(),
            lex_less(a@, b@) == lex_less_from(a@, b@, i as int),
        decreases a@.len() - i,
    {
        if a[i] < b[i] {
            return true;
        }
        if a[i] > b[i] {
            return false;
        }
        i = i + 1;
    }
    i < b.len()
}

/// Lexicographic order is irreflexive and transitive.
pub proof fn lemma_lex_order(a: Seq<i64>, b: Seq<i64>, c: Seq<i64>, i: int)
    requires
        0 <= i,
    ensures
        !lex_less_from(a, a, i),
        lex_less_from(a, b, i) && lex_less_from(b, c, i) ==> lex_less_from(a, c, i),
        lex_less_from(a, b, i) ==> !lex_less_from(b, a, i),
    decreases a.len() - i,
{
    if i < a.len() && i < b.len() && i < c.len() {
        lemma_lex_order(a, b, c, i + 1);
    } else if i < a.len() && i < b.len() {
        lemma_lex_order(a, b, c, i + 1);
    } else if i < a.len() {
        lemma_lex_order(a, b, c, i + 1);
    }
}

/// Two fitness vectors of one length are equal or one comes before the other.
pub proof fn lemma_lex_total(a: Seq<i64>, b: Seq<i64>, i: int)
    requires
        0 <= i <= a.len(),
        a.len() == b.len(),
    ensures
        lex_less_from(a, b, i) || lex_less_from(b, a, i) || a.subrange(i, a.len() as int) == b.subrange(i, b.len() as int),
    decreases a.len() - i,
{
    if i < a.len() {
        lemma_lex_total(a, b, i + 1);
        if a[i] == b[i] && a.subrange(i + 1, a.len() as int) == b.subrange(i + 1, b.len() as int) {
            assert(a.subrange(i, a.len() as int) =~= b.subrange(i, b.len() as int)) by {
                assert forall|k: int| 0 <= k < a.len() - i implies a.subrange(i, a.len() as int)[k] == b.subrange(i, b.len() as int)[k] by {
                    if k > 0 {
                        assert(a.subrange(i + 1, a.len() as int)[k - 1] == b.subrange(i + 1, b.len() as int)[k - 1]);
                    }
                }
            }
        }
    } else {
        assert(a.subrange(i, a.len() as int) =~= b.subrange(i, b.len() as int));
    }
}

pub open spec fn min_len(a: Seq<i64>, b: Seq<i64>) -> int {
    if a.len() <= b.len() { a.len() as int } else { b.len() as int }
}

/// `a` Pareto-dominates `b`: over the positions both have, never larger and at least once
/// smaller (lower is better).
#[verifier::opaque]
pub open spec fn dominates_spec(a: Seq<i64>, b: Seq<i64>) -> bool {
    &&& forall|i: int| 0 <= i < min_len(a, b) ==> a[i] <= b[i]
    &&& exists|i: int| 0 <= i < min_len(a, b) && a[i] < b[i]
}

/// Pareto dominance of candidate `a` over candidate `b` (see `dominates_spec`).
pub fn dominates(a: &Vector, b: &Vector) -> (r: bool)
    ensures
        r == dominates_spec(a.fitness@, b.fitness@),
{
    let n = if a.fitness.len() <= b.fitness.len() { a.fitness.len() } else { b.fitness.len() };
    let mut better_in_all = true;
    let mut strictly_better_in_one = false;
    let mut i: usize = 0;
    while i < n
        invariant
            n == min_len(a.fitness@, b.fitness@),
            i <= n,
            better_in_all == forall|k: int| 0 <= k < i ==> a.fitness@[k] <= b.fitness@[k],
            strictly_better_in_one == exists|k: int| 0 <= k < i && a.fitness@[k] < b.fitness@[k],
        decreases n - i,
    {
        if a.fitness[i] > b.fitness[i] {
            better_in_all = false;
        }
        if a.fitness[i] < b.fitness[i] {
            strictly_better_in_one = true;
        }
        i = i + 1;
    }
    proof {
        reveal(dominates_spec);
    }
    better_in_all && strictly_better_in_one
}

/// Dominance is a strict partial order: no fitness vector dominates itself, two never
/// dominate each other, and it is transitive on vectors of one length.
pub proof fn lemma_dominance_strict_order(a: Seq<i64>, b: Seq<i64>, c: Seq<i64>)
    ensures
        !dominates_spec(a, a),
        dominates_spec(a, b) ==> !dominates_spec(b, a),
        a.len() == b.len() && b.len() == c.len() && dominates_spec(a, b) && dominates_spec(b, c) ==> dominates_spec(a, c),
{
    reveal(dominates_spec);
    if dominates_spec(a, b) && dominates_spec(b, a) {
        let i = choose|i: int| 0 <= i < min_len(a, b) && a[i] < b[i];
        assert(b[i] <= a[i]);
    }
    if a.len() == b.len() && b.len() == c.len() && dominates_spec(a, b) && dominates_spec(b, c) {
        let i = choose|i: int| 0 <= i < min_len(a, b) && a[i] < b[i];
        assert(b[i] <= c[i]);
        assert(a[i] < c[i]);
    }
}

/// Sum of the first `n` values.
pub open spec fn fitness_sum(a: Seq<i64>, n: int) -> int
    decreases n,
{
    if n <= 0 {
        0
    } else {
        fitness_sum(a, n - 1) + a[n - 1]
    }
}

proof fn lemma_sum_monotone(a: Seq<i64>, b: Seq<i64>, n: int)
    requires
        0 <= n <= a.len(),
        n <= b.len(),
        forall|i: int| 0 <= i < n ==> a[i] <= b[i],
    ensures
        fitness_sum(a, n) <= fitness_sum(b, n),
        (exists|i: int| 0 <= i < n && a[i] < b[i]) ==> fitness_sum(a, n) < fitness_sum(b, n),
    decreases n,
{
    if n > 0 {
        lemma_sum_monotone(a, b, n - 1);
        if exists|i: int| 0 <= i < n && a[i] < b[i] {
            let i = choose|i: int| 0 <= i < n && a[i] < b[i];
            if i < n - 1 {
                assert(exists|j: int| 0 <= j < n - 1 && a[j] < b[j]);
            }
        }
    }
}

/// Every candidate has `m` fitness values.
pub open spec fn uniform(pool: Seq<Vector>, m: int) -> bool {
    forall|i: int| 0 <= i < pool.len() ==> (#[trigger] pool[i]).fitness@.len() == m
}

/// No candidate still `alive` dominates candidate `i`.
pub open spec fn undominated_among(pool: Seq<Vector>, alive: Seq<bool>, i: int) -> bool {
    forall|j: int| 0 <= j < pool.len() && alive[j] ==> !dominates_spec(#[trigger] pool[j].fitness@, pool[i].fitness@)
}

/// No candidate of the pool dominates candidate `i`.
pub open spec fn undominated(pool: Seq<Vector>, i: int) -> bool {
    forall|j: int| 0 <= j < pool.len() ==> !dominates_spec(#[trigger] pool[j].fitness@, pool[i].fitness@)
}

/// Among the alive candidates below `k`, one whose fitness sum is least.
proof fn lemma_least_sum(pool: Seq<Vector>, alive: Seq<bool>, m: int, k: int) -> (best: int)
    requires
        0 < k <= pool.len(),
        alive.len() == pool.len(),
        exists|i: int| 0 <= i < k && alive[i],
    ensures
        0 <= best < k,
        alive[best],
        forall|j: int| 0 <= j < k && alive[j] ==> fitness_sum(pool[best].fitness@, m) <= fitness_sum(#[trigger] pool[j].fitness@, m),
    decreases k,
{
    if exists|i: int| 0 <= i < k - 1 && alive[i] {
        let b = lemma_least_sum(pool, alive, m, k - 1);
        if alive[k - 1] && fitness_sum(pool[k - 1].fitness@, m) < fitness_sum(pool[b].fitness@, m) {
            k - 1
        } else {
            b
        }
    } else {
        k - 1
    }
}

/// While some candidate is alive, some alive candidate is dominated by no alive one.
pub proof fn lemma_front_exists(pool: Seq<Vector>, alive: Seq<bool>, m: int) -> (i: int)
    requires
        uniform(pool, m),
        alive.len() == pool.len(),
        exists|i: int| 0 <= i < pool.len() && alive[i],
    ensures
        0 <= i < pool.len(),
        alive[i],
        undominated_among(pool, alive, i),
{
    let best = lemma_least_sum(pool, alive, m, pool.len() as int);
    assert forall|j: int| 0 <= j < pool.len() && alive[j] implies !dominates_spec(#[trigger] pool[j].fitness@, pool[best].fitness@) by {
        if dominates_spec(pool[j].fitness@, pool[best].fitness@) {
            reveal(dominates_spec);
            lemma_sum_monotone(pool[j].fitness@, pool[best].fitness@, m);
        }
    }
    best
}

/// How many of the first `n` flags hold.
pub open spec fn count_true(s: Seq<bool>, n: int) -> int
    decreases n,
{
    if n <= 0 {
        0
    } else {
        count_true(s, n - 1) + if s[n - 1] { 1int } else { 0int }
    }
}

proof fn lemma_count_set_false(s: Seq<bool>, j: int, n: int)
    requires
        0 <= j < n <= s.len(),
        s[j],
    ensures
        count_true(s.update(j, false), n) == count_true(s, n) - 1,
    decreases n,
{
    if n - 1 > j {
        lemma_count_set_false(s, j, n - 1);
    } else {
        lemma_count_unchanged(s, s.update(j, false), n - 1);
    }
}

proof fn lemma_count_unchanged(s: Seq<bool>, t: Seq<bool>, n: int)
    requires
        0 <= n <= s.len(),
        n <= t.len(),
        forall|i: int| 0 <= i < n ==> s[i] == t[i],
    ensures
        count_true(s, n) == count_true(t, n),
    decreases n,
{
    if n > 0 {
        lemma_count_unchanged(s, t, n - 1);
    }
}

proof fn lemma_count_all_true(s: Seq<bool>, n: int)
    requires
        0 <= n <= s.len(),
        forall|i: int| 0 <= i < n ==> #[trigger] s[i],
    ensures
        count_true(s, n) == n,
    decreases n,
{
    if n > 0 {
        lemma_count_all_true(s, n - 1);
    }
}

proof fn lemma_count_bounds(s: Seq<bool>, n: int)
    requires
        0 <= n <= s.len(),
    ensures
        0 <= count_true(s, n) <= n,
    decreases n,
{
    if n > 0 {
        lemma_count_bounds(s, n - 1);
    }
}

proof fn lemma_some_alive(s: Seq<bool>, n: int)
    requires
        0 <= n <= s.len(),
        count_true(s, n) > 0,
    ensures
        exists|i: int| 0 <= i < n && s[i],
    decreases n,
{
    if n > 0 && !s[n - 1] {
        lemma_some_alive(s, n - 1);
    }
}

proof fn lemma_total_len_prefix(fronts: Seq<Vec<usize>>, prefix: Seq<Vec<usize>>)
    requires
        fronts.len() == prefix.len() + 1,
        forall|f: int| 0 <= f < prefix.len() ==> prefix[f] == fronts[f],
    ensures
        total_len(fronts, fronts.len() as int) == total_len(prefix, prefix.len() as int) + fronts[prefix.len() as int]@.len(),
{
    lemma_total_len_same(fronts, prefix, prefix.len() as int);
}

proof fn lemma_total_len_same(a: Seq<Vec<usize>>, b: Seq<Vec<usize>>, k: int)
    requires
        0 <= k <= a.len(),
        k <= b.len(),
        forall|f: int| 0 <= f < k ==> a[f] == b[f],
    ensures
        total_len(a, k) == total_len(b, k),
    decreases k,
{
    if k > 0 {
        lemma_total_len_same(a, b, k - 1);
    }
}

/// Total length of the first `k` fronts.
pub open spec fn total_len(fronts: Seq<Vec<usize>>, k: int) -> int
    decreases k,
{
    if k <= 0 {
        0
    } else {
        total_len(fronts, k - 1) + fronts[k - 1]@.len()
    }
}

/// The alive candidates that no alive candidate dominates, in increasing order.
fn current_front(vectors: &Vec<Vector>, alive: &Vec<bool>) -> (front: Vec<usize>)
    requires
        alive@.len() == vectors@.len(),
    ensures
        forall|p: int, q: int| 0 <= p < q < front@.len() ==> front@[p] < front@[q],
        forall|p: int|
            0 <= p < front@.len() ==> #[trigger] front@[p] < vectors@.len() && alive@[front@[p] as int]
                && undominated_among(vectors@, alive@, front@[p] as int),
        forall|i: int|
            0 <= i < vectors@.len() && alive@[i] && undominated_among(vectors@, alive@, i) ==> exists|p: int|
                0 <= p < front@.len() && #[trigger] front@[p] == i,
{
    let n = vectors.len();
    let mut front: Vec<usize> = Vec::new();
    let mut i: usize = 0;
    while i < n
        invariant
            n == vectors@.len(),
            alive@.len() == n,
            i <= n,
            forall|p: int| 0 <= p < front@.len() ==> #[trigger] front@[p] < i,
            forall|p: int, q: int| 0 <= p < q < front@.len() ==> front@[p] < front@[q],
            forall|p: int|
                0 <= p < front@.len() ==> #[trigger] front@[p] < vectors@.len() && alive@[front@[p] as int]
                    && undominated_among(vectors@, alive@, front@[p] as int),
            forall|k: int|
                0 <= k < i && alive@[k] && undominated_among(vectors@, alive@, k) ==> exists|p: int|
                    0 <= p < front@.len() && #[trigger] front@[p] == k,
        decreases n - i,
    {
        if alive[i] {
            let mut free = true;
            let mut j: usize = 0;
            while j < n
                invariant
                    n == vectors@.len(),
                    alive@.len() == n,
                    i < n,
                    j <= n,
                    free == forall|k: int| 0 <= k < j && alive@[k] ==> !dominates_spec(#[trigger] vectors@[k].fitness@, vectors@[i as int].fitness@),
                decreases n - j,
            {
                if alive[j] && dominates(&vectors[j], &vectors[i]) {
                    free = false;
                }
                j = j + 1;
            }
            if free {
                let ghost before = front@;
                front.push(i);
                proof {
                    assert forall|k: int|
                        0 <= k < i + 1 && alive@[k] && undominated_among(vectors@, alive@, k) implies exists|p: int|
                            0 <= p < front@.len() && #[trigger] front@[p] == k by {
                        if k == i {
                            assert(front@[before.len() as int] == k);
                        } else {
                            let p = choose|p: int| 0 <= p < before.len() && #[trigger] before[p] == k;
                            assert(front@[p] == k);
                        }
                    }
                }
            }
        }
        i = i + 1;
    }
    front
}

proof fn lemma_all_alive(pool: Seq<Vector>, alive: Seq<bool>)
    requires
        alive.len() == pool.len(),
        forall|j: int| 0 <= j < pool.len() ==> #[trigger] alive[j],
    ensures
        forall|i: int| 0 <= i < pool.len() ==> undominated(pool, i) == undominated_among(pool, alive, i),
{
}

/// Candidate `i` is listed in the front.
pub open spec fn in_front(front: Seq<usize>, i: int) -> bool {
    exists|p: int| 0 <= p < front.len() && front[p] == i
}

/// Candidate `i` is listed in one of the first `f` fronts.
pub open spec fn placed_before(fronts: Seq<Vec<usize>>, f: int, i: int) -> bool {
    exists|g: int| 0 <= g < f && in_front(#[trigger] fronts[g]@, i)
}

/// Which of the `n` candidates are in none of the first `f` fronts.
pub open spec fn remaining(fronts: Seq<Vec<usize>>, f: int, n: int) -> Seq<bool> {
    Seq::new(n as nat, |i: int| !placed_before(fronts, f, i))
}

/// Front `f` lists exactly the candidates in no earlier front that no such candidate
/// dominates.
pub open spec fn is_front(pool: Seq<Vector>, fronts: Seq<Vec<usize>>, f: int) -> bool {
    forall|i: int|
        0 <= i < pool.len() ==> (#[trigger] in_front(fronts[f]@, i) <==> (remaining(fronts, f, pool.len() as int)[i]
            && undominated_among(pool, remaining(fronts, f, pool.len() as int), i)))
}

proof fn lemma_push_front(fronts: Seq<Vec<usize>>, front: Vec<usize>, n: int)
    requires
        n >= 0,
    ensures
        forall|f: int| 0 <= f <= fronts.len() ==> #[trigger] remaining(fronts.push(front), f, n) == remaining(fronts, f, n),
        forall|i: int|
            0 <= i < n ==> #[trigger] remaining(fronts.push(front), fronts.len() + 1 as int, n)[i] == (remaining(fronts, fronts.len() as int, n)[i]
                && !in_front(front@, i)),
{
    let longer = fronts.push(front);
    assert forall|f: int| 0 <= f <= fronts.len() implies #[trigger] remaining(longer, f, n) == remaining(fronts, f, n) by {
        assert forall|i: int| 0 <= i < n implies placed_before(longer, f, i) == placed_before(fronts, f, i) by {
            if placed_before(longer, f, i) {
                let g = choose|g: int| 0 <= g < f && in_front(#[trigger] longer[g]@, i);
                assert(longer[g] == fronts[g]);
            }
            if placed_before(fronts, f, i) {
                let g = choose|g: int| 0 <= g < f && in_front(#[trigger] fronts[g]@, i);
                assert(longer[g] == fronts[g]);
            }
        }
        assert(remaining(longer, f, n) =~= remaining(fronts, f, n));
    }
    assert forall|i: int| 0 <= i < n implies #[trigger] remaining(longer, fronts.len() + 1 as int, n)[i] == (remaining(fronts, fronts.len() as int, n)[i]
        && !in_front(front@, i)) by {
        if placed_before(longer, fronts.len() + 1 as int, i) {
            let g = choose|g: int| 0 <= g < fronts.len() + 1 as int && in_front(#[trigger] longer[g]@, i);
            if g < fronts.len() {
                assert(longer[g] == fronts[g]);
            }
        }
        if placed_before(fronts, fronts.len() as int, i) {
            let g = choose|g: int| 0 <= g < fronts.len() && in_front(#[trigger] fronts[g]@, i);
            assert(longer[g] == fronts[g]);
        }
        if in_front(front@, i) {
            assert(longer[fronts.len() as int] == front);
        }
    }
}

/// Clears the flags of the front's candidates.
fn retire(alive: &mut Vec<bool>, front: &Vec<usize>)
    requires
        forall|p: int, r: int| 0 <= p < r < front@.len() ==> front@[p] < front@[r],
        forall|p: int| 0 <= p < front@.len() ==> #[trigger] front@[p] < old(alive)@.len() && old(alive)@[front@[p] as int],
    ensures
        final(alive)@.len() == old(alive)@.len(),
        count_true(final(alive)@, old(alive)@.len() as int) == count_true(old(alive)@, old(alive)@.len() as int) - front@.len(),
        forall|i: int| 0 <= i < old(alive)@.len() ==> #[trigger] final(alive)@[i] == (old(alive)@[i] && !in_front(front@, i)),
{
    let ghost first_alive = alive@;
    let n = alive.len();
    let m = front.len();
    let mut q: usize = 0;
    while q < m
        invariant
            m == front@.len(),
            q <= m,
            alive@.len() == n,
            first_alive.len() == n,
            forall|p: int, r: int| 0 <= p < r < front@.len() ==> front@[p] < front@[r],
            forall|p: int| 0 <= p < front@.len() ==> #[trigger] front@[p] < n && first_alive[front@[p] as int],
            forall|p: int| q <= p < m ==> alive@[#[trigger] front@[p] as int] == first_alive[front@[p] as int],
            count_true(alive@, n as int) == count_true(first_alive, n as int) - q,
            forall|i: int| 0 <= i < n ==> #[trigger] alive@[i] == (first_alive[i] && !in_front(front@.subrange(0, q as int), i)),
        decreases m - q,
    {
        let idx = front[q];
        proof {
            assert(alive@[idx as int]);
            lemma_count_set_false(alive@, idx as int, n as int);
        }
        let ghost before = alive@;
        alive.set(idx, false);
        proof {
            assert forall|p: int| q + 1 <= p < m implies alive@[#[trigger] front@[p] as int] == first_alive[front@[p] as int] by {
                assert(front@[p] != idx);
            }
            assert forall|i: int| 0 <= i < n implies #[trigger] alive@[i] == (first_alive[i] && !in_front(front@.subrange(0, q + 1), i)) by {
                let shorter = front@.subrange(0, q as int);
                let longer = front@.subrange(0, q + 1);
                if in_front(shorter, i) {
                    let p = choose|p: int| 0 <= p < shorter.len() && shorter[p] == i;
                    assert(longer[p] == i);
                }
                if in_front(longer, i) && i != idx {
                    let p = choose|p: int| 0 <= p < longer.len() && longer[p] == i;
                    assert(shorter[p] == i);
                }
                if i == idx {
                    assert(longer[q as int] == i);
                }
            }
        }
        q = q + 1;
    }
    assert(front@.subrange(0, m as int) =~= front@);
}

/// Takes the next front off the alive candidates (see `current_front`) and retires it.
fn next_front(vectors: &Vec<Vector>, alive: &mut Vec<bool>, num_objectives: usize, fresh: bool) -> (front: Vec<usize>)
    requires
        old(alive)@.len() == vectors@.len(),
        uniform(vectors@, num_objectives as int),
        count_true(old(alive)@, vectors@.len() as int) > 0,
        fresh ==> forall|j: int| 0 <= j < vectors@.len() ==> #[trigger] old(alive)@[j],
    ensures
        final(alive)@.len() == vectors@.len(),
        front@.len() > 0,
        count_true(final(alive)@, vectors@.len() as int) == count_true(old(alive)@, vectors@.len() as int) - front@.len(),
        forall|p: int| 0 <= p < front@.len() ==> #[trigger] front@[p] < vectors@.len(),
        fresh ==> forall|p: int| 0 <= p < front@.len() ==> undominated(vectors@, #[trigger] front@[p] as int),
        fresh ==> forall|i: int|
            0 <= i < vectors@.len() && undominated(vectors@, i) ==> exists|p: int| 0 <= p < front@.len() && #[trigger] front@[p] == i,
        forall|p: int, r: int| 0 <= p < r < front@.len() ==> front@[p] < front@[r],
        forall|i: int|
            0 <= i < vectors@.len() ==> (#[trigger] in_front(front@, i) <==> (old(alive)@[i] && undominated_among(vectors@, old(alive)@, i))),
        forall|i: int| 0 <= i < vectors@.len() ==> #[trigger] final(alive)@[i] == (old(alive)@[i] && !in_front(front@, i)),
{
    let n = vectors.len();
    proof {
        lemma_some_alive(alive@, n as int);
    }
    let front = current_front(vectors, alive);
    proof {
        let i = lemma_front_exists(vectors@, alive@, num_objectives as int);
        assert(exists|p: int| 0 <= p < front@.len() && #[trigger] front@[p] == i);
        if fresh {
            lemma_all_alive(vectors@, alive@);
            assert forall|i: int| 0 <= i < vectors@.len() && undominated(vectors@, i) implies exists|p: int|
                0 <= p < front@.len() && #[trigger] front@[p] == i by {
                assert(alive@[i]);
                assert(undominated_among(vectors@, alive@, i));
            }
        }
        assert forall|i: int| 0 <= i < vectors@.len() implies (#[trigger] in_front(front@, i) <==> (alive@[i] && undominated_among(vectors@, alive@, i))) by {
            if in_front(front@, i) {
                let p = choose|p: int| 0 <= p < front@.len() && front@[p] == i;
                assert(front@[p] < vectors@.len());
            }
            if alive@[i] && undominated_among(vectors@, alive@, i) {
                let p = choose|p: int| 0 <= p < front@.len() && #[trigger] front@[p] == i;
            }
        }
    }
    retire(alive, &front);
    front
}

/// Non-dominated sorting: the first front holds the candidates that no candidate dominates;
/// each later front those that no candidate left after the earlier fronts dominates. Each
/// front lists its candidates' indices in increasing order.
#[verifier::rlimit(40)]
pub fn non_dominated_sort(vectors: &Vec<Vector>, num_objectives: usize) -> (fronts: Vec<Vec<usize>>)
    requires
        uniform(vectors@, num_objectives as int),
    ensures
        total_len(fronts@, fronts@.len() as int) == vectors@.len(),
        forall|f: int| 0 <= f < fronts@.len() ==> (#[trigger] fronts@[f])@.len() > 0,
        forall|f: int, p: int|
            0 <= f < fronts@.len() && 0 <= p < fronts@[f]@.len() ==> #[trigger] fronts@[f]@[p] < vectors@.len(),
        vectors@.len() > 0 ==> fronts@.len() > 0,
        forall|f: int| 0 <= f < fronts@.len() ==> #[trigger] is_front(vectors@, fronts@, f),
        forall|f: int, p: int, r: int| 0 <= f < fronts@.len() && 0 <= p < r < fronts@[f]@.len() ==> fronts@[f]@[p] < fronts@[f]@[r],
        fronts@.len() > 0 ==> forall|p: int|
            0 <= p < fronts@[0]@.len() ==> undominated(vectors@, #[trigger] fronts@[0]@[p] as int),
        fronts@.len() > 0 ==> forall|i: int|
            0 <= i < vectors@.len() && undominated(vectors@, i) ==> exists|p: int|
                0 <= p < fronts@[0]@.len() && #[trigger] fronts@[0]@[p] == i,
{
    let n = vectors.len();
    let mut alive: Vec<bool> = Vec::new();
    let mut k: usize = 0;
    while k < n
        invariant
            k <= n,
            alive@.len() == k,
            forall|j: int| 0 <= j < k ==> #[trigger] alive@[j],
        decreases n - k,
    {
        alive.push(true);
        k = k + 1;
    }
    let mut fronts: Vec<Vec<usize>> = Vec::new();
    let mut done: usize = 0;
    proof {
        lemma_count_all_true(alive@, n as int);
        assert(alive@ =~= remaining(fronts@, 0, n as int));
    }
    while done < n
        invariant
            n == vectors@.len(),
            alive@.len() == n,
            uniform(vectors@, num_objectives as int),
            count_true(alive@, n as int) == n - done,
            done == total_len(fronts@, fronts@.len() as int),
            done <= n,
            fronts@.len() == 0 ==> forall|j: int| 0 <= j < n ==> #[trigger] alive@[j],
            fronts@.len() == 0 ==> done == 0,
            alive@ == remaining(fronts@, fronts@.len() as int, n as int),
            forall|f: int| 0 <= f < fronts@.len() ==> #[trigger] is_front(vectors@, fronts@, f),
            forall|f: int, p: int, r: int| 0 <= f < fronts@.len() && 0 <= p < r < fronts@[f]@.len() ==> fronts@[f]@[p] < fronts@[f]@[r],
            forall|f: int| 0 <= f < fronts@.len() ==> (#[trigger] fronts@[f])@.len() > 0,
            forall|f: int, p: int|
                0 <= f < fronts@.len() && 0 <= p < fronts@[f]@.len() ==> #[trigger] fronts@[f]@[p] < n,
            fronts@.len() > 0 ==> forall|p: int|
                0 <= p < fronts@[0]@.len() ==> undominated(vectors@, #[trigger] fronts@[0]@[p] as int),
            fronts@.len() > 0 ==> forall|i: int|
                0 <= i < n && undominated(vectors@, i) ==> exists|p: int|
                    0 <= p < fronts@[0]@.len() && #[trigger] fronts@[0]@[p] == i,
        decreases n - done,
    {
        let was_fresh = fronts.len() == 0;
        let ghost alive_before = alive@;
        let front = next_front(vectors, &mut alive, num_objectives, was_fresh);
        let m = front.len();
        proof {
            lemma_count_bounds(alive@, n as int);
        }
        let ghost old_fronts = fronts@;
        fronts.push(front);
        proof {
            assert(fronts@.drop_last() =~= old_fronts);
            lemma_total_len_prefix(fronts@, old_fronts);
            lemma_push_front(old_fronts, front, n as int);
            assert(fronts@ == old_fronts.push(front));
            assert(alive@ =~= remaining(fronts@, fronts@.len() as int, n as int));
            assert forall|f: int| 0 <= f < fronts@.len() implies #[trigger] is_front(vectors@, fronts@, f) by {
                assert(remaining(fronts@, f, n as int) == remaining(old_fronts, f, n as int));
                if f < old_fronts.len() {
                    assert(is_front(vectors@, old_fronts, f));
                    assert(fronts@[f] == old_fronts[f]);
                } else {
                    assert(fronts@[f] == front);
                    assert(alive_before == remaining(old_fronts, f, n as int));
                }
            }
            assert forall|f: int, p: int, r: int| 0 <= f < fronts@.len() && 0 <= p < r < fronts@[f]@.len() implies fronts@[f]@[p] < fronts@[f]@[r] by {
                if f < old_fronts.len() {
                    assert(fronts@[f] == old_fronts[f]);
                }
            }
            assert forall|f: int, p: int|
                0 <= f < fronts@.len() && 0 <= p < fronts@[f]@.len() implies #[trigger] fronts@[f]@[p] < n by {
                if f < old_fronts.len() {
                    assert(fronts@[f] == old_fronts[f]);
                }
            }
        }
        done = done + m;
    }
    fronts
}

} // verus!
