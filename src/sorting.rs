//! Stable ordering of indices by integer keys.

use vstd::prelude::*;

verus! {

/// `order` lists each index below `n` exactly once.
pub open spec fn is_permutation(order: Seq<usize>, n: int) -> bool {
    &&& order.len() == n
    &&& forall|k: int| 0 <= k < n ==> #[trigger] order[k] < n
    &&& forall|a: int, b: int| 0 <= a < b < n ==> order[a] != order[b]
    &&& forall|j: int| 0 <= j < n ==> #[trigger] occurs(order, j)
}

/// `j` stands somewhere in `order`.
pub open spec fn occurs(order: Seq<usize>, j: int) -> bool {
    exists|k: int| 0 <= k < order.len() && order[k] == j
}

/// The keys taken in the given order do not decrease.
pub open spec fn ordered_by(order: Seq<usize>, keys: Seq<i128>) -> bool {
    forall|a: int, b: int| 0 <= a <= b < order.len() ==> keys[order[a] as int] <= keys[order[b] as int]
}

/// The indices of `keys` ordered by ascending key (insertion sort: equal keys keep
/// their order).
pub fn sorted_order(keys: &Vec<i128>) -> (order: Vec<usize>)
    ensures
        is_permutation(order@, keys@.len() as int),
        ordered_by(order@, keys@),
{
    let n = keys.len();
    let mut order: Vec<usize> = Vec::new();
    let mut k: usize = 0;
    while k < n
        invariant
            k <= n,
            order@.len() == k,
            forall|a: int| 0 <= a < k ==> #[trigger] order@[a] == a,
        decreases n - k,
    {
        order.push(k);
        k = k + 1;
    }
    let ghost mut inv: Seq<int> = Seq::new(n as nat, |a: int| a);
    let mut i: usize = 1;
    if n == 0 {
        return order;
    }
    while i < n
        invariant
            n == keys@.len(),
            1 <= i <= n,
            order@.len() == n,
            inv.len() == n,
            forall|a: int| 0 <= a < n ==> #[trigger] order@[a] < n,
            forall|a: int| 0 <= a < n ==> 0 <= #[trigger] inv[a] < n,
            forall|a: int| 0 <= a < n ==> order@[#[trigger] inv[a]] == a,
            forall|a: int| 0 <= a < n ==> inv[#[trigger] order@[a] as int] == a,
            forall|a: int, b: int| 0 <= a <= b < i ==> keys@[order@[a] as int] <= keys@[order@[b] as int],
        decreases n - i,
    {
        let mut j: usize = i;
        while j > 0 && keys[order[j - 1]] > keys[order[j]]
            invariant
                n == keys@.len(),
                1 <= i < n,
                j <= i,
                order@.len() == n,
                inv.len() == n,
                forall|a: int| 0 <= a < n ==> #[trigger] order@[a] < n,
                forall|a: int| 0 <= a < n ==> 0 <= #[trigger] inv[a] < n,
                forall|a: int| 0 <= a < n ==> order@[#[trigger] inv[a]] == a,
                forall|a: int| 0 <= a < n ==> inv[#[trigger] order@[a] as int] == a,
                forall|a: int, b: int|
                    0 <= a <= b <= i && a != j && b != j ==> keys@[order@[a] as int] <= keys@[order@[b] as int],
                forall|b: int| j < b <= i ==> keys@[order@[j as int] as int] <= keys@[#[trigger] order@[b] as int],
            decreases j,
        {
            let x = order[j - 1];
            let y = order[j];
            order.set(j - 1, y);
            order.set(j, x);
            proof {
                inv = inv.update(x as int, j as int).update(y as int, j - 1);
            }
            j = j - 1;
        }
        i = i + 1;
    }
    proof {
        assert forall|a: int, b: int| 0 <= a < b < n implies order@[a] != order@[b] by {
            assert(inv[order@[a] as int] == a);
            assert(inv[order@[b] as int] == b);
        }
        assert forall|v: int| 0 <= v < n implies #[trigger] occurs(order@, v) by {
            assert(order@[inv[v]] == v);
        }
    }
    order
}

} // verus!
