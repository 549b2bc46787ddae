//! Stable sorting by integer keys.

use vstd::prelude::*;

verus! {

/// The lexicographic order on pairs of integers.
pub open spec fn key_less(a: (i64, i64), b: (i64, i64)) -> bool {
    a.0 < b.0 || (a.0 == b.0 && a.1 < b.1)
}

/// Whether position `a` comes before position `b` in a stable sort.
pub open spec fn stable_before(keys: Seq<(i64, i64)>, a: int, b: int) -> bool {
    key_less(keys[a], keys[b]) || (keys[a] == keys[b] && a < b)
}

/// `order` lists the positions `[0, n)` once each, in the order in which a
/// stable sort puts them.
pub open spec fn is_stable_order(keys: Seq<(i64, i64)>, n: int, order: Seq<usize>) -> bool {
    &&& order.len() == n
    &&& forall|i: int| 0 <= i < n ==> #[trigger] order[i] < n
    &&& order.no_duplicates()
    &&& forall|p: usize| p < n ==> #[trigger] order.contains(p)
    &&& forall|i: int, j: int|
        0 <= i < j < n ==> stable_before(keys, #[trigger] order[i] as int, #[trigger] order[j] as int)
}

/// A key that reverses the order of `x`.
pub fn descending(x: i64) -> (r: i64)
    ensures
        r == -1 - x,
{
    -1 - x
}

/// The positions come in the order in which a stable sort puts them.
spec fn in_stable_order(keys: Seq<(i64, i64)>, order: Seq<usize>) -> bool {
    forall|i: int, j: int|
        0 <= i < j < order.len() ==> stable_before(
            keys,
            #[trigger] order[i] as int,
            #[trigger] order[j] as int,
        )
}

/// `order` lists the positions `[lo, hi)` in the order in which a stable sort puts them.
spec fn is_run(keys: Seq<(i64, i64)>, lo: int, hi: int, order: Seq<usize>) -> bool {
    &&& order.len() == hi - lo
    &&& forall|i: int| 0 <= i < order.len() ==> lo <= #[trigger] order[i] < hi
    &&& forall|p: usize| lo <= p < hi ==> #[trigger] order.contains(p)
    &&& in_stable_order(keys, order)
}

/// The positions of `order` come before those of `rest` from `k` on.
spec fn all_before(
    keys: Seq<(i64, i64)>,
    order: Seq<usize>,
    rest: Seq<usize>,
    k: int,
) -> bool {
    forall|i: int, j: int|
        0 <= i < order.len() && k <= j < rest.len() ==> stable_before(
            keys,
            #[trigger] order[i] as int,
            #[trigger] rest[j] as int,
        )
}

/// The positions of `rest` before `k` are in `order`.
spec fn taken_from(order: Seq<usize>, rest: Seq<usize>, k: int) -> bool {
    forall|j: int| 0 <= j < k ==> order.contains(#[trigger] rest[j])
}

/// Adding the next position of `from` to the positions that come before it keeps them in
/// order, where it comes before all that `other` has left.
proof fn lemma_added(
    keys: Seq<(i64, i64)>,
    order: Seq<usize>,
    from: Seq<usize>,
    k: int,
    other: Seq<usize>,
    l: int,
)
    requires
        0 <= k < from.len(),
        0 <= l <= other.len(),
        in_stable_order(keys, order),
        in_stable_order(keys, from),
        in_stable_order(keys, other),
        all_before(keys, order, from, k),
        all_before(keys, order, other, l),
        taken_from(order, from, k),
        taken_from(order, other, l),
        l < other.len() ==> stable_before(keys, from[k] as int, other[l] as int),
    ensures
        in_stable_order(keys, order.push(from[k])),
        all_before(keys, order.push(from[k]), from, k + 1),
        all_before(keys, order.push(from[k]), other, l),
        taken_from(order.push(from[k]), from, k + 1),
        taken_from(order.push(from[k]), other, l),
{
    let more = order.push(from[k]);
    assert(more[order.len() as int] == from[k]);
    assert forall|q: usize| order.contains(q) implies #[trigger] more.contains(q) by {
        let i = choose|i: int| 0 <= i < order.len() && order[i] == q;
        assert(more[i] == q);
    }
    assert forall|j: int| 0 <= j < k + 1 implies more.contains(#[trigger] from[j]) by {
        if j < k {
            assert(order.contains(from[j]));
        }
    }
    assert forall|j: int| 0 <= j < l implies more.contains(#[trigger] other[j]) by {
        assert(order.contains(other[j]));
    }
    assert forall|i: int, j: int| 0 <= i < more.len() && l <= j < other.len() implies stable_before(
        keys,
        #[trigger] more[i] as int,
        #[trigger] other[j] as int,
    ) by {
        if i < order.len() {
            assert(more[i] == order[i]);
        } else if j > l {
            assert(stable_before(keys, other[l] as int, other[j] as int));
        }
    }
}

/// Merges the positions of two halves.
fn merged(
    keys: &[(i64, i64)],
    left: &Vec<usize>,
    right: &Vec<usize>,
    lo: usize,
    mid: usize,
    hi: usize,
) -> (order: Vec<usize>)
    requires
        lo <= mid <= hi <= keys@.len(),
        is_run(keys@, lo as int, mid as int, left@),
        is_run(keys@, mid as int, hi as int, right@),
    ensures
        is_run(keys@, lo as int, hi as int, order@),
{
    let mut order: Vec<usize> = Vec::with_capacity(hi - lo);
    let mut i: usize = 0;
    let mut j: usize = 0;
    while i < left.len() || j < right.len()
        invariant
            lo <= mid <= hi <= keys@.len(),
            is_run(keys@, lo as int, mid as int, left@),
            is_run(keys@, mid as int, hi as int, right@),
            i <= left@.len(),
            j <= right@.len(),
            order@.len() == i + j,
            forall|k: int| 0 <= k < order@.len() ==> lo <= #[trigger] order@[k] < hi,
            in_stable_order(keys@, order@),
            all_before(keys@, order@, left@, i as int),
            all_before(keys@, order@, right@, j as int),
            taken_from(order@, left@, i as int),
            taken_from(order@, right@, j as int),
        decreases left.len() - i + right.len() - j,
    {
        let from_right: bool = if i == left.len() {
            true
        } else if j == right.len() {
            false
        } else {
            let a = keys[left[i]];
            let b = keys[right[j]];
            b.0 < a.0 || (b.0 == a.0 && b.1 < a.1)
        };
        if from_right {
            proof {
                lemma_added(keys@, order@, right@, j as int, left@, i as int);
            }
            order.push(right[j]);
            j += 1;
        } else {
            proof {
                lemma_added(keys@, order@, left@, i as int, right@, j as int);
            }
            order.push(left[i]);
            i += 1;
        }
    }
    proof {
        assert forall|p: usize| lo <= p < hi implies #[trigger] order@.contains(p) by {
            if p < mid {
                assert(left@.contains(p));
                let k = choose|k: int| 0 <= k < left@.len() && left@[k] == p;
                assert(order@.contains(left@[k]));
            } else {
                assert(right@.contains(p));
                let k = choose|k: int| 0 <= k < right@.len() && right@[k] == p;
                assert(order@.contains(right@[k]));
            }
        }
    }
    order
}

/// Returns the positions `[lo, hi)` in the order in which a stable sort puts them.
fn run_of(keys: &[(i64, i64)], lo: usize, hi: usize) -> (order: Vec<usize>)
    requires
        lo <= hi <= keys@.len(),
    ensures
        is_run(keys@, lo as int, hi as int, order@),
    decreases hi - lo,
{
    if hi - lo <= 1 {
        let mut order: Vec<usize> = Vec::new();
        if lo < hi {
            order.push(lo);
            assert(order@[0] == lo);
        }
        return order;
    }
    let mid: usize = lo + (hi - lo) / 2;
    let left = run_of(keys, lo, mid);
    let right = run_of(keys, mid, hi);
    merged(keys, &left, &right, lo, mid, hi)
}

/// Returns the positions of `keys` in the order in which a stable sort puts
/// them.
pub fn stable_order(keys: &[(i64, i64)]) -> (order: Vec<usize>)
    ensures
        is_stable_order(keys@, keys@.len() as int, order@),
{
    let order = run_of(keys, 0, keys.len());
    assert(order@.no_duplicates()) by {
        assert forall|a: int, b: int| 0 <= a < b < order@.len() implies order@[a] != order@[b] by {
            assert(stable_before(keys@, order@[a] as int, order@[b] as int));
        }
    }
    order
}

/// Returns the items in the given order.
pub fn reordered<T>(items: Vec<T>, order: &[usize]) -> (r: Vec<T>)
    requires
        order@.len() == items@.len(),
        order@.no_duplicates(),
        forall|i: int| 0 <= i < order@.len() ==> #[trigger] order@[i] < items@.len(),
    ensures
        r@ == Seq::new(items@.len(), |i: int| items@[order@[i] as int]),
{
    let ghost all = items@;
    let n: usize = items.len();
    let mut rest: Vec<T> = items;
    let mut slots: Vec<Option<T>> = Vec::with_capacity(n);
    while rest.len() > 0
        invariant
            n == all.len(),
            rest@.len() <= n,
            rest@ =~= all.take(rest@.len() as int),
            slots@.len() == n - rest@.len(),
            forall|j: int| 0 <= j < slots@.len() ==> #[trigger] slots@[j] == Some(all[n - 1 - j]),
        decreases rest.len(),
    {
        let last = rest.pop();
        slots.push(last);
    }
    let mut r: Vec<T> = Vec::with_capacity(n);
    let mut i: usize = 0;
    while i < n
        invariant
            n == all.len(),
            i <= n,
            order@.len() == n,
            order@.no_duplicates(),
            forall|j: int| 0 <= j < n ==> #[trigger] order@[j] < n,
            slots@.len() == n,
            r@ =~= Seq::new(i as nat, |j: int| all[order@[j] as int]),
            forall|j: int|
                i <= j < n ==> slots@[n - 1 - #[trigger] order@[j]] == Some(all[order@[j] as int]),
        decreases n - i,
    {
        let source: usize = order[i];
        let slot: usize = n - 1 - source;
        assert(slots@[slot as int] == Some(all[source as int]));
        let taken = slots[slot].take();
        match taken {
            Some(item) => {
                r.push(item);
            },
            None => {
                assert(false);
            },
        }
        i += 1;
    }
    r
}

} // verus!
