//! A priority queue of positions into an array that the caller owns.
//!
//! The queue compares the elements of the array, which the caller may change
//! between two operations; every operation that compares takes the array. The
//! queue is a binary heap, so its layout, and with it the order in which equal
//! elements come out, is a function of the operations applied.

use std::marker::PhantomData;

use vstd::prelude::*;
use vstd::slice::slice_subrange;

use crate::util::heap::{
    heapified, heapified_is_heap, heapified_keeps_elements, is_heap, lesser_child, parent, refines,
    removed_root_keeps_others, sift_down, sift_down_keeps_elements, sift_down_restores_heap,
    sift_up, sift_up_keeps_elements, sift_up_restores_heap, swapped,
};

verus! {

/// The order of an [`IndexPriorityQueue`].
pub trait IndexOrder<T> {
    /// Whether `a` is less than `b`.
    spec fn less(a: T, b: T) -> bool;

    /// Returns whether `a` is less than `b`.
    fn less_than(a: &T, b: &T) -> (r: bool)
        ensures
            r == Self::less(*a, *b),
    ;
}

/// The order on positions that the elements at these positions have.
pub open spec fn by_value<T, O: IndexOrder<T>>(values: Seq<T>) -> spec_fn(usize, usize) -> bool {
    |a: usize, b: usize| O::less(values[a as int], values[b as int])
}

/// Every entry is a position of the array.
pub open spec fn all_below(entries: Seq<usize>, len: nat) -> bool {
    forall|i: int| 0 <= i < entries.len() ==> #[trigger] entries[i] < len
}

/// A priority queue of positions, the least element first.
#[verifier::reject_recursive_types(T)]
#[verifier::reject_recursive_types(O)]
pub struct IndexPriorityQueue<T, O: IndexOrder<T>> {
    heap: Vec<usize>,
    size: usize,
    max_size: usize,
    marker: PhantomData<(T, O)>,
}

impl<T, O: IndexOrder<T>> View for IndexPriorityQueue<T, O> {
    type V = Seq<usize>;

    closed spec fn view(&self) -> Seq<usize> {
        Seq::new(self.size as nat, |i: int| self.heap[i + 1])
    }
}

impl<T, O: IndexOrder<T>> IndexPriorityQueue<T, O> {
    /// The number of entries that the queue was made for.
    pub closed spec fn max_size(&self) -> nat {
        self.max_size as nat
    }

    /// The entries fit into the queue.
    pub closed spec fn wf(&self) -> bool {
        &&& 2 * self.max_size < usize::MAX
        &&& self.heap.len() == if self.max_size == 0 {
            2
        } else {
            self.max_size + 1
        }
        &&& self.size <= self.max_size
    }

    /// Creates a queue of the given maximum size.
    pub fn new(max_size: usize) -> (r: Self)
        requires
            2 * max_size < usize::MAX,
        ensures
            r.wf(),
            r.max_size() == max_size,
            r@ == Seq::<usize>::empty(),
    {
        let heap_size: usize = if max_size == 0 {
            2
        } else {
            max_size + 1
        };
        let r = IndexPriorityQueue {
            heap: vec![usize::MAX; heap_size],
            size: 0,
            max_size,
            marker: PhantomData,
        };
        assert(r@ =~= Seq::<usize>::empty());
        r
    }

    /// Returns the number of entries.
    pub fn size(&self) -> (r: usize)
        ensures
            r == self@.len(),
    {
        self.size
    }

    /// Returns the least entry, or `None` when the queue is empty.
    pub fn top(&self) -> (r: Option<usize>)
        requires
            self.wf(),
        ensures
            r == if self@.len() == 0 {
                None
            } else {
                Some(self@[0])
            },
    {
        if self.size == 0 {
            None
        } else {
            Some(self.heap[1])
        }
    }

    /// Returns the entry at position `i` of the heap.
    pub fn get(&self, i: usize) -> (r: usize)
        requires
            self.wf(),
            i < self@.len(),
        ensures
            r == self@[i as int],
    {
        self.heap[1 + i]
    }

    /// Adds an entry and returns the new least entry.
    pub fn add(&mut self, values: &[T], element: usize) -> (r: usize)
        requires
            old(self).wf(),
            old(self)@.len() < old(self).max_size(),
            all_below(old(self)@, values@.len()),
            element < values@.len(),
        ensures
            final(self).wf(),
            final(self).max_size() == old(self).max_size(),
            final(self)@ == sift_up(
                old(self)@.push(element),
                by_value::<T, O>(values@),
                old(self)@.len() as int,
            ),
            final(self)@.to_multiset() == old(self)@.to_multiset().insert(element),
            r == final(self)@[0],
    {
        let index: usize = self.size + 1;
        self.heap[index] = element;
        self.size = index;
        assert(self@ =~= old(self)@.push(element));
        proof {
            broadcast use vstd::seq_lib::group_to_multiset_ensures;

            sift_up_keeps_elements(self@, by_value::<T, O>(values@), index - 1);
        }
        self.up_heap(values, index);
        self.heap[1]
    }

    /// Adds all `elements` at once.
    pub fn add_all(&mut self, values: &[T], elements: &[usize])
        requires
            old(self).wf(),
            old(self)@.len() + elements@.len() <= old(self).max_size(),
            all_below(old(self)@, values@.len()),
            all_below(elements@, values@.len()),
        ensures
            final(self).wf(),
            final(self).max_size() == old(self).max_size(),
            final(self)@ == heapified(
                old(self)@ + elements@,
                by_value::<T, O>(values@),
                ((old(self)@.len() + elements@.len()) / 2) as int,
            ),
            final(self)@.to_multiset() == (old(self)@ + elements@).to_multiset(),
    {
        let ghost lt = by_value::<T, O>(values@);
        let ghost all = old(self)@ + elements@;
        let mut e: usize = 0;
        while e < elements.len()
            invariant
                e <= elements@.len(),
                self.wf(),
                self.max_size == old(self).max_size,
                self.size == old(self)@.len() + e,
                old(self)@.len() + elements@.len() <= self.max_size,
                self@ =~= old(self)@ + elements@.take(e as int),
            decreases elements.len() - e,
        {
            let ghost before = self@;
            self.heap[self.size + 1] = elements[e];
            self.size += 1;
            assert(self@ =~= before.push(elements@[e as int]));
            e += 1;
        }
        assert(self@ =~= all);
        let mut i: usize = self.size / 2;
        let ghost goal = heapified(all, lt, i as int);
        proof {
            heapified_keeps_elements(all, lt, i as int);
        }
        while i > 0
            invariant
                lt == by_value::<T, O>(values@),
                self.wf(),
                self.max_size == old(self).max_size,
                i <= self.size / 2,
                all_below(self@, values@.len()),
                goal == heapified(self@, lt, i as int),
            decreases i,
        {
            proof {
                sift_down_keeps_elements(self@, lt, i - 1);
                lemma_all_below_kept(
                    self@,
                    sift_down(self@, lt, i - 1),
                    values@.len(),
                );
            }
            self.down_heap(values, i);
            i -= 1;
        }
    }

    /// Adds an entry; when the queue is full, the lesser one of the least entry
    /// and `element` is left out and returned.
    pub fn insert_with_overflow(&mut self, values: &[T], element: usize) -> (r: Option<usize>)
        requires
            old(self).wf(),
            all_below(old(self)@, values@.len()),
            element < values@.len(),
        ensures
            final(self).wf(),
            final(self).max_size() == old(self).max_size(),
            r is None <==> old(self)@.len() < old(self).max_size(),
            r is None ==> final(self)@ == sift_up(
                old(self)@.push(element),
                by_value::<T, O>(values@),
                old(self)@.len() as int,
            ),
            r matches Some(out) ==> if old(self)@.len() > 0 && O::less(
                values@[old(self)@[0] as int],
                values@[element as int],
            ) {
                &&& out == old(self)@[0]
                &&& final(self)@ == sift_down(
                    old(self)@.update(0, element),
                    by_value::<T, O>(values@),
                    0,
                )
            } else {
                &&& out == element
                &&& final(self)@ == old(self)@
            },
    {
        if self.size < self.max_size {
            self.add(values, element);
            None
        } else {
            if self.size > 0 {
                assert(self@[0] == self.heap[1]);
            }
            if self.size > 0 && O::less_than(&values[self.heap[1]], &values[element]) {
                let ret: usize = self.heap[1];
                self.heap[1] = element;
                assert(self@ =~= old(self)@.update(0, element));
                self.update_top(values);
                Some(ret)
            } else {
                Some(element)
            }
        }
    }

    /// Removes and returns the least entry.
    pub fn pop(&mut self, values: &[T]) -> (r: Option<usize>)
        requires
            old(self).wf(),
            all_below(old(self)@, values@.len()),
        ensures
            final(self).wf(),
            final(self).max_size() == old(self).max_size(),
            r == if old(self)@.len() == 0 {
                None
            } else {
                Some(old(self)@[0])
            },
            r is None ==> final(self)@ == old(self)@,
            r is Some ==> final(self)@ == sift_down(
                old(self)@.update(0, old(self)@.last()).drop_last(),
                by_value::<T, O>(values@),
                0,
            ),
            r matches Some(e) ==> final(self)@.to_multiset().insert(e) == old(self)@.to_multiset(),
    {
        if self.size > 0 {
            let result: usize = self.heap[1];
            let last: usize = self.heap[self.size];
            self.heap[1] = last;
            self.size -= 1;
            proof {
                let s = old(self)@;
                let rest = s.update(0, s.last()).drop_last();
                assert(self@ =~= rest);
                removed_root_keeps_others(s);
                sift_down_keeps_elements(rest, by_value::<T, O>(values@), 0);
            }
            self.down_heap(values, 1);
            Some(result)
        } else {
            None
        }
    }

    /// Restores the order after the least element has changed, and returns the
    /// new least entry.
    pub fn update_top(&mut self, values: &[T]) -> (r: Option<usize>)
        requires
            old(self).wf(),
            all_below(old(self)@, values@.len()),
        ensures
            final(self).wf(),
            final(self).max_size() == old(self).max_size(),
            final(self)@ == sift_down(old(self)@, by_value::<T, O>(values@), 0),
            final(self)@.to_multiset() == old(self)@.to_multiset(),
            r == if final(self)@.len() == 0 {
                None
            } else {
                Some(final(self)@[0])
            },
    {
        proof {
            sift_down_keeps_elements(old(self)@, by_value::<T, O>(values@), 0);
        }
        self.down_heap(values, 1);
        self.top()
    }

    /// Replaces the least entry, if there is one, and restores the order.
    pub fn update_top_with(&mut self, values: &[T], new_top: usize) -> (r: Option<usize>)
        requires
            old(self).wf(),
            all_below(old(self)@, values@.len()),
            new_top < values@.len(),
        ensures
            final(self).wf(),
            final(self).max_size() == old(self).max_size(),
            final(self)@ == sift_down(
                if old(self)@.len() == 0 {
                    old(self)@
                } else {
                    old(self)@.update(0, new_top)
                },
                by_value::<T, O>(values@),
                0,
            ),
            r == if final(self)@.len() == 0 {
                None
            } else {
                Some(final(self)@[0])
            },
    {
        self.heap[1] = new_top;
        assert(self@ =~= if old(self)@.len() == 0 {
            old(self)@
        } else {
            old(self)@.update(0, new_top)
        });
        self.update_top(values)
    }

    /// Removes every entry.
    pub fn clear(&mut self)
        requires
            old(self).wf(),
        ensures
            final(self).wf(),
            final(self).max_size() == old(self).max_size(),
            final(self)@ == Seq::<usize>::empty(),
    {
        self.size = 0;
        assert(self@ =~= Seq::<usize>::empty());
    }

    /// Returns the entries in heap order.
    pub fn entries(&self) -> (r: &[usize])
        requires
            self.wf(),
        ensures
            r@ == self@,
    {
        let r = slice_subrange(self.heap.as_slice(), 1, self.size + 1);
        assert(r@ =~= self@);
        r
    }

    fn up_heap(&mut self, values: &[T], orig_pos: usize)
        requires
            old(self).wf(),
            all_below(old(self)@, values@.len()),
            1 <= orig_pos <= old(self)@.len(),
        ensures
            final(self).wf(),
            final(self).max_size == old(self).max_size,
            final(self)@ == sift_up(old(self)@, by_value::<T, O>(values@), orig_pos - 1),
    {
        let ghost lt = by_value::<T, O>(values@);
        let mut i: usize = orig_pos;
        let node: usize = self.heap[i];
        let mut j: usize = i / 2;
        let ghost goal = sift_up(old(self)@, lt, orig_pos - 1);
        proof {
            assert(old(self)@[orig_pos - 1] == node);
            assert(self@.update(i - 1, node) =~= old(self)@);
            if j > 0 {
                assert(self.heap[j as int] == self@[j - 1]);
            }
        }
        while j > 0 && O::less_than(&values[node], &values[self.heap[j]])
            invariant
                lt == by_value::<T, O>(values@),
                self.wf(),
                self.max_size == old(self).max_size,
                self.size == old(self).size,
                1 <= i <= self.size,
                j == i / 2,
                node < values@.len(),
                all_below(self@, values@.len()),
                j > 0 ==> self.heap[j as int] == self@[j - 1],
                goal == sift_up(self@.update(i - 1, node), lt, i - 1),
            decreases i,
        {
            let ghost c = i - 1;
            let ghost before = self@.update(c, node);
            let up: usize = self.heap[j];
            self.heap[i] = up;
            i = j;
            j = j / 2;
            proof {
                assert(self@.update(i - 1, node) =~= swapped(before, c, i - 1));
                if j > 0 {
                    assert(self.heap[j as int] == self@[j - 1]);
                }
                assert forall|k: int| 0 <= k < self@.len() implies #[trigger] self@[k]
                    < values@.len() by {
                    assert(k == c || self@[k] == before[k]);
                }
            }
        }
        let ghost last = self@.update(i - 1, node);
        self.heap[i] = node;
        assert(self@ =~= last);
    }

    fn down_heap(&mut self, values: &[T], start: usize)
        requires
            old(self).wf(),
            all_below(old(self)@, values@.len()),
            old(self)@.len() > 0 ==> 1 <= start <= old(self)@.len(),
        ensures
            final(self).wf(),
            final(self).max_size == old(self).max_size,
            final(self).size == old(self).size,
            old(self)@.len() == 0 ==> final(self)@ == old(self)@,
            final(self)@ == sift_down(
                old(self)@,
                by_value::<T, O>(values@),
                if old(self)@.len() == 0 {
                    0
                } else {
                    start - 1
                },
            ),
    {
        if self.size == 0 {
            return;
        }
        let ghost lt = by_value::<T, O>(values@);
        let mut i: usize = start;
        let node: usize = self.heap[i];
        let ghost goal = sift_down(old(self)@, lt, start - 1);
        proof {
            assert(old(self)@[start - 1] == node);
            assert(self@.update(i - 1, node) =~= old(self)@);
        }
        let mut j: usize = self.lesser_child_slot(values, i, Ghost(node));
        while j <= self.size && O::less_than(&values[self.heap[j]], &values[node])
            invariant
                lt == by_value::<T, O>(values@),
                self.wf(),
                self.max_size == old(self).max_size,
                self.size == old(self).size,
                1 <= i <= self.size,
                i < j,
                node < values@.len(),
                all_below(self@, values@.len()),
                j - 1 == lesser_child(self@.update(i - 1, node), lt, i - 1),
                j <= self.size ==> self.heap[j as int] == self@[j - 1],
                goal == sift_down(self@.update(i - 1, node), lt, i - 1),
            decreases self.size - i,
        {
            let ghost c = i - 1;
            let ghost before = self@.update(c, node);
            let down: usize = self.heap[j];
            self.heap[i] = down;
            i = j;
            proof {
                assert(self@.update(i - 1, node) =~= swapped(before, c, i - 1));
                assert forall|k: int| 0 <= k < self@.len() implies #[trigger] self@[k]
                    < values@.len() by {
                    assert(k == c || self@[k] == before[k]);
                }
            }
            j = self.lesser_child_slot(values, i, Ghost(node));
        }
        let ghost last = self@.update(i - 1, node);
        self.heap[i] = node;
        assert(self@ =~= last);
    }

    /// Returns the slot of the child of `i` that has the lesser element; a slot
    /// after the last entry when there is no child.
    fn lesser_child_slot(&self, values: &[T], i: usize, Ghost(node): Ghost<usize>) -> (j: usize)
        requires
            self.wf(),
            all_below(self@, values@.len()),
            1 <= i <= self.size,
        ensures
            i < j,
            j - 1 == lesser_child(self@.update(i - 1, node), by_value::<T, O>(values@), i - 1),
            j <= self.size ==> self.heap[j as int] == self@[j - 1],
    {
        let j: usize = 2 * i;
        let k: usize = j + 1;
        let ghost s = self@.update(i - 1, node);
        if k <= self.size {
            assert(self.heap[k as int] == self@[k - 1] && self.heap[j as int] == self@[j - 1]);
            assert(s[k - 1] == self@[k - 1] && s[j - 1] == self@[j - 1]);
            if O::less_than(&values[self.heap[k]], &values[self.heap[j]]) {
                return k;
            }
        }
        j
    }
}

proof fn lemma_all_below_kept(a: Seq<usize>, b: Seq<usize>, len: nat)
    requires
        all_below(a, len),
        a.to_multiset() == b.to_multiset(),
    ensures
        all_below(b, len),
{
    broadcast use vstd::seq_lib::group_to_multiset_ensures;

    assert forall|i: int| 0 <= i < b.len() implies #[trigger] b[i] < len by {
        assert(b.to_multiset().contains(b[i]));
        assert(a.to_multiset().contains(b[i]));
        assert(a.contains(b[i]));
    }
}

/// Adding to, removing from and updating a queue keeps it a heap, for every
/// total preorder that the order of the queue refines.
pub proof fn queue_operations_keep_heap<T, O: IndexOrder<T>>(
    values: Seq<T>,
    le: spec_fn(usize, usize) -> bool,
    s: Seq<usize>,
    e: usize,
)
    requires
        refines(by_value::<T, O>(values), le),
        is_heap(s, le),
    ensures
        is_heap(sift_up(s.push(e), by_value::<T, O>(values), s.len() as int), le),
        s.len() > 0 ==> is_heap(
            sift_down(s.update(0, s.last()).drop_last(), by_value::<T, O>(values), 0),
            le,
        ),
        s.len() > 0 ==> is_heap(sift_down(s.update(0, e), by_value::<T, O>(values), 0), le),
{
    let lt = by_value::<T, O>(values);
    sift_up_restores_heap(s, lt, le, e);
    if s.len() > 0 {
        let rest = s.update(0, s.last()).drop_last();
        assert forall|c: int| #![trigger rest[c]] 0 < c < rest.len() && parent(c) >= 1 implies le(
            rest[parent(c)],
            rest[c],
        ) by {
            assert(le(s[parent(c)], s[c]));
        }
        sift_down_restores_heap(rest, lt, le);
        let top = s.update(0, e);
        assert forall|c: int| #![trigger top[c]] 0 < c < top.len() && parent(c) >= 1 implies le(
            top[parent(c)],
            top[c],
        ) by {
            assert(le(s[parent(c)], s[c]));
        }
        sift_down_restores_heap(top, lt, le);
    }
}

/// Adding all elements at once makes the queue a heap, whatever its order was.
pub proof fn bulk_addition_makes_heap<T, O: IndexOrder<T>>(
    values: Seq<T>,
    le: spec_fn(usize, usize) -> bool,
    s: Seq<usize>,
)
    requires
        refines(by_value::<T, O>(values), le),
    ensures
        is_heap(heapified(s, by_value::<T, O>(values), (s.len() / 2) as int), le),
{
    heapified_is_heap(s, by_value::<T, O>(values), le, (s.len() / 2) as int);
}

} // verus!
