//! Binary heaps in arrays of slots, with an order whose comparison may fail.

use vstd::prelude::*;

use crate::error::LuceneError;
use crate::util::heap::{
    lesser_child, sift_down, sift_up, swapped,
};

verus! {

/// An order whose comparison may fail.
pub trait SlotOrder<T> {
    /// Whether `a` is to come before `b`.
    spec fn before(a: T, b: T) -> bool;

    /// Whether the item can be compared.
    spec fn comparable(a: T) -> bool;

    /// Whether comparing the item never fails.
    spec fn infallible(a: T) -> bool;

    /// Returns whether `a` is to come before `b`.
    ///
    /// # Errors
    ///
    /// Whatever reading the items fails with.
    fn comes_before(a: &T, b: &T) -> (r: Result<bool, LuceneError>)
        requires
            Self::comparable(*a),
            Self::comparable(*b),
        ensures
            Self::infallible(*a) && Self::infallible(*b) ==> r is Ok,
            r matches Ok(less) ==> less == Self::before(*a, *b),
    ;
}

/// The order as a function.
pub open spec fn order_of<T, O: SlotOrder<T>>() -> spec_fn(T, T) -> bool {
    |a: T, b: T| O::before(a, b)
}

/// No slot is empty.
pub open spec fn all_filled<T>(slots: Seq<Option<T>>) -> bool {
    forall|i: int| 0 <= i < slots.len() ==> #[trigger] slots[i] is Some
}

/// The items of the slots.
pub open spec fn items<T>(slots: Seq<Option<T>>) -> Seq<T> {
    slots.map_values(|s: Option<T>| s->0)
}

/// Every item can be compared.
pub open spec fn all_comparable<T, O: SlotOrder<T>>(s: Seq<T>) -> bool {
    forall|i: int| 0 <= i < s.len() ==> O::comparable(#[trigger] s[i])
}

/// Comparing never fails.
pub open spec fn all_infallible<T, O: SlotOrder<T>>(s: Seq<T>) -> bool {
    forall|i: int| 0 <= i < s.len() ==> O::infallible(#[trigger] s[i])
}

/// Exchanges the items of two slots.
fn swap_slots<T>(slots: &mut Vec<Option<T>>, i: usize, j: usize)
    requires
        all_filled(old(slots)@),
        i < old(slots)@.len(),
        j < old(slots)@.len(),
        i != j,
    ensures
        final(slots)@.len() == old(slots)@.len(),
        all_filled(final(slots)@),
        items(final(slots)@) == swapped(items(old(slots)@), i as int, j as int),
{
    let ghost before = slots@;
    let a = slots[i].take();
    let b = slots[j].take();
    slots[i] = b;
    slots[j] = a;
    proof {
        assert(slots@[i as int] == before[j as int]);
        assert(slots@[j as int] == before[i as int]);
        assert(items(slots@) =~= swapped(items(before), i as int, j as int));
    }
}

fn slot_before<T, O: SlotOrder<T>>(slots: &Vec<Option<T>>, i: usize, j: usize) -> (r: Result<
    bool,
    LuceneError,
>)
    requires
        all_filled(slots@),
        all_comparable::<T, O>(items(slots@)),
        i < slots@.len(),
        j < slots@.len(),
    ensures
        all_infallible::<T, O>(items(slots@)) ==> r is Ok,
        r matches Ok(less) ==> less == O::before(items(slots@)[i as int], items(slots@)[j as int]),
{
    assert(O::comparable(items(slots@)[i as int]));
    assert(O::comparable(items(slots@)[j as int]));
    assert(all_infallible::<T, O>(items(slots@)) ==> O::infallible(items(slots@)[i as int])
        && O::infallible(items(slots@)[j as int]));
    match (&slots[i], &slots[j]) {
        (Some(a), Some(b)) => O::comes_before(a, b),
        _ => Ok(false),
    }
}

proof fn lemma_swapped_kept<T, O: SlotOrder<T>>(s: Seq<T>, i: int, j: int)
    requires
        0 <= i < s.len(),
        0 <= j < s.len(),
    ensures
        all_comparable::<T, O>(s) ==> all_comparable::<T, O>(swapped(s, i, j)),
        all_infallible::<T, O>(s) ==> all_infallible::<T, O>(swapped(s, i, j)),
{
    let t = swapped(s, i, j);
    if all_comparable::<T, O>(s) {
        assert forall|k: int| 0 <= k < t.len() implies O::comparable(#[trigger] t[k]) by {
            let m = if k == j {
                i
            } else if k == i {
                j
            } else {
                k
            };
            assert(t[k] == s[m]);
        }
    }
    if all_infallible::<T, O>(s) {
        assert forall|k: int| 0 <= k < t.len() implies O::infallible(#[trigger] t[k]) by {
            let m = if k == j {
                i
            } else if k == i {
                j
            } else {
                k
            };
            assert(t[k] == s[m]);
        }
    }
}

/// Moves the item at `start` towards the root while it is to come before its
/// parent.
///
/// # Errors
///
/// The first error of a comparison.
pub fn up_heap<T, O: SlotOrder<T>>(slots: &mut Vec<Option<T>>, start: usize) -> (r: Result<
    (),
    LuceneError,
>)
    requires
        all_filled(old(slots)@),
        all_comparable::<T, O>(items(old(slots)@)),
        start < old(slots)@.len(),
    ensures
        all_infallible::<T, O>(items(old(slots)@)) ==> r is Ok,
        r is Ok ==> {
            &&& all_filled(final(slots)@)
            &&& all_comparable::<T, O>(items(final(slots)@))
            &&& items(final(slots)@) == sift_up(
                items(old(slots)@),
                order_of::<T, O>(),
                start as int,
            )
        },
{
    let ghost lt = order_of::<T, O>();
    let ghost goal = sift_up(items(slots@), lt, start as int);
    let mut i: usize = start;
    while i > 0
        invariant
            lt == order_of::<T, O>(),
            all_filled(slots@),
            all_comparable::<T, O>(items(slots@)),
            all_infallible::<T, O>(items(old(slots)@)) ==> all_infallible::<T, O>(items(slots@)),
            i < slots@.len(),
            goal == sift_up(items(slots@), lt, i as int),
            goal == sift_up(items(old(slots)@), lt, start as int),
        decreases i,
    {
        let j: usize = (i - 1) / 2;
        let ghost s = items(slots@);
        if !slot_before::<T, O>(slots, i, j)? {
            return Ok(());
        }
        swap_slots(slots, i, j);
        proof {
            lemma_swapped_kept::<T, O>(s, i as int, j as int);
        }
        i = j;
    }
    Ok(())
}

/// Moves the item at `start` towards the leaves while a child is to come before
/// it.
///
/// # Errors
///
/// The first error of a comparison.
pub fn down_heap<T, O: SlotOrder<T>>(slots: &mut Vec<Option<T>>, start: usize) -> (r: Result<
    (),
    LuceneError,
>)
    requires
        all_filled(old(slots)@),
        all_comparable::<T, O>(items(old(slots)@)),
        start < old(slots)@.len(),
        2 * old(slots)@.len() <= usize::MAX,
    ensures
        all_infallible::<T, O>(items(old(slots)@)) ==> r is Ok,
        r is Ok ==> {
            &&& all_filled(final(slots)@)
            &&& all_comparable::<T, O>(items(final(slots)@))
            &&& items(final(slots)@) == sift_down(
                items(old(slots)@),
                order_of::<T, O>(),
                start as int,
            )
        },
{
    let ghost lt = order_of::<T, O>();
    let ghost goal = sift_down(items(slots@), lt, start as int);
    let n: usize = slots.len();
    let mut i: usize = start;
    while 2 * i + 1 < n
        invariant
            lt == order_of::<T, O>(),
            n == slots@.len(),
            2 * n <= usize::MAX,
            all_filled(slots@),
            all_comparable::<T, O>(items(slots@)),
            all_infallible::<T, O>(items(old(slots)@)) ==> all_infallible::<T, O>(items(slots@)),
            i < n,
            goal == sift_down(items(slots@), lt, i as int),
            goal == sift_down(items(old(slots)@), lt, start as int),
        decreases n - i,
    {
        let ghost s = items(slots@);
        let mut child: usize = 2 * i + 1;
        if child + 1 < n && slot_before::<T, O>(slots, child + 1, child)? {
            child = child + 1;
        }
        assert(child == lesser_child(s, lt, i as int));
        if !slot_before::<T, O>(slots, child, i)? {
            return Ok(());
        }
        swap_slots(slots, i, child);
        proof {
            lemma_swapped_kept::<T, O>(s, i as int, child as int);
        }
        i = child;
    }
    Ok(())
}

} // verus!
