//! A bounded priority queue: a binary heap whose root is the least item.

use vstd::prelude::*;

use crate::util::heap::{
    heap_root_is_least, is_heap, is_heap_from, parent, refines, removed_root_keeps_others,
    sift_down, sift_down_keeps_elements, sift_down_restores_heap, sift_up, sift_up_keeps_elements,
    sift_up_restores_heap,
};
use crate::util::slots::{
    all_comparable, all_filled, all_infallible, down_heap, items, order_of, up_heap, SlotOrder,
};

verus! {

/// The items of a heap once its root is removed.
pub open spec fn popped<T>(s: Seq<T>, lt: spec_fn(T, T) -> bool) -> Seq<T> {
    if s.len() <= 1 {
        Seq::empty()
    } else {
        sift_down(s.drop_last().update(0, s.last()), lt, 0)
    }
}

/// The items of a heap once its root is replaced.
pub open spec fn replaced<T>(s: Seq<T>, lt: spec_fn(T, T) -> bool, item: T) -> Seq<T> {
    sift_down(s.update(0, item), lt, 0)
}

/// A priority queue that holds at most a given number of items.
pub struct PriorityQueue<T, O: SlotOrder<T>> {
    slots: Vec<Option<T>>,
    max_size: usize,
    order: core::marker::PhantomData<O>,
}

impl<T, O: SlotOrder<T>> PriorityQueue<T, O> {
    /// The items in the order of the heap.
    pub closed spec fn heap(&self) -> Seq<T> {
        items(self.slots@)
    }

    /// The greatest number of items.
    pub closed spec fn capacity(&self) -> int {
        self.max_size as int
    }

    /// Every slot holds an item, and there are not too many.
    pub closed spec fn wf(&self) -> bool {
        &&& all_filled(self.slots@)
        &&& self.slots@.len() <= self.max_size
        &&& 2 * self.max_size <= usize::MAX
    }

    /// The items can be compared, which never fails.
    pub open spec fn ordered(&self) -> bool {
        all_comparable::<T, O>(self.heap()) && all_infallible::<T, O>(self.heap())
    }

    /// Creates an empty queue.
    pub fn new(max_size: usize) -> (r: Self)
        requires
            2 * max_size <= usize::MAX,
        ensures
            r.wf(),
            r.capacity() == max_size,
            r.heap() == Seq::<T>::empty(),
    {
        let slots: Vec<Option<T>> = Vec::new();
        assert(items(slots@) =~= Seq::<T>::empty());
        PriorityQueue { slots, max_size, order: core::marker::PhantomData }
    }

    /// There are not more items than the queue is for.
    pub proof fn size_is_bounded(&self)
        requires
            self.wf(),
        ensures
            self.heap().len() <= self.capacity(),
    {
    }

    /// Returns the number of items.
    pub fn size(&self) -> (r: usize)
        ensures
            r == self.heap().len(),
    {
        self.slots.len()
    }

    /// Returns the least item; `None` when there is none.
    pub fn top(&self) -> (r: Option<&T>)
        requires
            self.wf(),
        ensures
            r is None <==> self.heap().len() == 0,
            r matches Some(item) ==> *item == self.heap()[0],
    {
        if self.slots.len() == 0 {
            None
        } else {
            assert(self.slots@[0] is Some);
            self.slots[0].as_ref()
        }
    }

    /// Adds an item.
    pub fn add(&mut self, item: T)
        requires
            old(self).wf(),
            old(self).ordered(),
            old(self).heap().len() < old(self).capacity(),
            O::comparable(item),
            O::infallible(item),
        ensures
            final(self).wf(),
            final(self).capacity() == old(self).capacity(),
            final(self).heap() == sift_up(
                old(self).heap().push(item),
                order_of::<T, O>(),
                old(self).heap().len() as int,
            ),
    {
        let n: usize = self.slots.len();
        let ghost before = self.heap();
        self.slots.push(Some(item));
        proof {
            assert(items(self.slots@) =~= before.push(item));
            assert forall|i: int| 0 <= i < before.push(item).len() implies O::comparable(
                #[trigger] before.push(item)[i],
            ) && O::infallible(before.push(item)[i]) by {
                if i < before.len() {
                    assert(before.push(item)[i] == before[i]);
                }
            }
            sift_up_keeps_elements(before.push(item), order_of::<T, O>(), n as int);
        }
        let r = up_heap::<T, O>(&mut self.slots, n);
        assert(r is Ok);
    }

    /// Moves the least item to its place after it was changed.
    pub fn update_top(&mut self)
        requires
            old(self).wf(),
            old(self).ordered(),
        ensures
            final(self).wf(),
            final(self).capacity() == old(self).capacity(),
            final(self).heap() == (if old(self).heap().len() == 0 {
                Seq::empty()
            } else {
                sift_down(old(self).heap(), order_of::<T, O>(), 0)
            }),
    {
        if self.slots.len() > 0 {
            proof {
                sift_down_keeps_elements(self.heap(), order_of::<T, O>(), 0);
            }
            let r = down_heap::<T, O>(&mut self.slots, 0);
            assert(r is Ok);
        } else {
            assert(self.heap() =~= Seq::empty());
        }
    }

    /// Puts an item in the place of the least one, and returns that.
    pub fn update_top_with(&mut self, item: T) -> (r: T)
        requires
            old(self).wf(),
            old(self).ordered(),
            old(self).heap().len() > 0,
            O::comparable(item),
            O::infallible(item),
        ensures
            final(self).wf(),
            final(self).capacity() == old(self).capacity(),
            r == old(self).heap()[0],
            final(self).heap() == replaced(old(self).heap(), order_of::<T, O>(), item),
    {
        let ghost before = self.heap();
        assert(self.slots@[0] is Some);
        let least = self.slots[0].take().unwrap();
        self.slots.set(0, Some(item));
        proof {
            assert(items(self.slots@) =~= before.update(0, item));
            assert forall|i: int| 0 <= i < before.update(0, item).len() implies O::comparable(
                #[trigger] before.update(0, item)[i],
            ) && O::infallible(before.update(0, item)[i]) by {
                if i > 0 {
                    assert(before.update(0, item)[i] == before[i]);
                }
            }
        }
        self.update_top();
        least
    }

    /// Removes the least item, and returns it; `None` when there is none.
    pub fn pop(&mut self) -> (r: Option<T>)
        requires
            old(self).wf(),
            old(self).ordered(),
        ensures
            final(self).wf(),
            final(self).capacity() == old(self).capacity(),
            r is None <==> old(self).heap().len() == 0,
            r matches Some(item) ==> item == old(self).heap()[0],
            final(self).heap() == popped(old(self).heap(), order_of::<T, O>()),
    {
        let n: usize = self.slots.len();
        let ghost before = self.heap();
        if n == 0 {
            assert(self.heap() =~= popped(before, order_of::<T, O>()));
            return None;
        }
        assert(self.slots@[n - 1] is Some);
        let last = self.slots.pop().unwrap();
        if n == 1 {
            assert(self.heap() =~= popped(before, order_of::<T, O>()));
            return last;
        }
        proof {
            assert(items(self.slots@) =~= before.drop_last());
            assert forall|i: int| 0 <= i < before.drop_last().len() implies O::comparable(
                #[trigger] before.drop_last()[i],
            ) && O::infallible(before.drop_last()[i]) by {
                assert(before.drop_last()[i] == before[i]);
            }
            assert(O::comparable(before[n - 1]) && O::infallible(before[n - 1]));
        }
        match last {
            Some(item) => Some(self.update_top_with(item)),
            None => None,
        }
    }

    /// Adds an item when there is room, or when it is greater than the least one,
    /// which then leaves. Returns what is not in the queue afterwards: the item
    /// that left, the item itself, or `None`.
    pub fn insert_with_overflow(&mut self, item: T) -> (r: Option<T>)
        requires
            old(self).wf(),
            old(self).ordered(),
            O::comparable(item),
            O::infallible(item),
        ensures
            final(self).wf(),
            final(self).capacity() == old(self).capacity(),
            ({
                let s = old(self).heap();
                if s.len() < old(self).capacity() {
                    r is None && final(self).heap() == sift_up(
                        s.push(item),
                        order_of::<T, O>(),
                        s.len() as int,
                    )
                } else if s.len() > 0 && O::before(s[0], item) {
                    r == Some(s[0]) && final(self).heap() == replaced(s, order_of::<T, O>(), item)
                } else {
                    r == Some(item) && final(self).heap() == s
                }
            }),
    {
        if self.slots.len() < self.max_size {
            self.add(item);
            return None;
        }
        let greater: bool = match self.top() {
            None => false,
            Some(least) => {
                assert(O::comparable(self.heap()[0]) && O::infallible(self.heap()[0]));
                match O::comes_before(least, &item) {
                    Ok(less) => less,
                    Err(_) => false,
                }
            },
        };
        if greater {
            Some(self.update_top_with(item))
        } else {
            Some(item)
        }
    }

    /// Returns the item at a position of the heap.
    pub fn item_at(&self, i: usize) -> (r: &T)
        requires
            self.wf(),
            i < self.heap().len(),
        ensures
            *r == self.heap()[i as int],
    {
        assert(self.slots@[i as int] is Some);
        self.slots[i].as_ref().unwrap()
    }

    /// Returns a queue with the same items.
    pub fn duplicate(&self) -> (r: Self) where T: Copy
        requires
            self.wf(),
        ensures
            r.wf(),
            r.capacity() == self.capacity(),
            r.heap() == self.heap(),
    {
        let n: usize = self.slots.len();
        let mut slots: Vec<Option<T>> = Vec::with_capacity(n);
        let mut i: usize = 0;
        while i < n
            invariant
                n == self.slots@.len(),
                self.wf(),
                i <= n,
                slots@.len() == i,
                all_filled(slots@),
                forall|j: int| 0 <= j < i ==> (#[trigger] slots@[j])->0 == self.heap()[j],
            decreases n - i,
        {
            slots.push(Some(*self.item_at(i)));
            i += 1;
        }
        assert(items(slots@) =~= self.heap());
        PriorityQueue { slots, max_size: self.max_size, order: core::marker::PhantomData }
    }

    /// Removes all items.
    pub fn clear(&mut self)
        requires
            old(self).wf(),
        ensures
            final(self).wf(),
            final(self).capacity() == old(self).capacity(),
            final(self).heap() == Seq::<T>::empty(),
    {
        self.slots.clear();
        assert(self.heap() =~= Seq::<T>::empty());
    }
}

/// Adding an item, replacing the least one and removing it keep the heap in order
/// and the other items in it.
pub proof fn operations_keep_items<T>(
    s: Seq<T>,
    lt: spec_fn(T, T) -> bool,
    le: spec_fn(T, T) -> bool,
    item: T,
)
    requires
        refines(lt, le),
        is_heap(s, le),
    ensures
        ({
            let added = sift_up(s.push(item), lt, s.len() as int);
            &&& is_heap(added, le)
            &&& added.to_multiset() == s.to_multiset().insert(item)
        }),
        s.len() > 0 ==> {
            &&& is_heap(replaced(s, lt, item), le)
            &&& replaced(s, lt, item).to_multiset() == s.to_multiset().remove(s[0]).insert(item)
            &&& is_heap(popped(s, lt), le)
            &&& popped(s, lt).to_multiset() == s.to_multiset().remove(s[0])
        },
{
    broadcast use vstd::seq_lib::group_to_multiset_ensures;
    broadcast use vstd::multiset::group_multiset_axioms;

    sift_up_restores_heap(s, lt, le, item);
    sift_up_keeps_elements(s.push(item), lt, s.len() as int);
    if s.len() > 0 {
        let t = s.update(0, item);
        assert(is_heap_from(t, le, 1)) by {
            assert forall|c: int| #![trigger t[c]] 0 < c < t.len() && parent(c) >= 1 implies le(
                t[parent(c)],
                t[c],
            ) by {
                assert(le(s[parent(c)], s[c]));
            }
        }
        sift_down_restores_heap(t, lt, le);
        sift_down_keeps_elements(t, lt, 0);
        assert(t.to_multiset() =~= s.to_multiset().remove(s[0]).insert(item));
        removed_root_keeps_others(s);
        let rest = s.update(0, s.last()).drop_last();
        assert(s.contains(s[0]));
        assert forall|x: T|
            #[trigger] rest.to_multiset().count(x) == s.to_multiset().remove(s[0]).count(x) by {
            assert(rest.to_multiset().insert(s[0]).count(x) == s.to_multiset().count(x));
        }
        assert(rest.to_multiset() =~= s.to_multiset().remove(s[0]));
        if s.len() == 1 {
            assert(rest =~= popped(s, lt));
        } else {
            let u = s.drop_last().update(0, s.last());
            assert(u =~= rest);
            assert(is_heap_from(u, le, 1)) by {
                assert forall|c: int| #![trigger u[c]]
                    0 < c < u.len() && parent(c) >= 1 implies le(u[parent(c)], u[c]) by {
                    assert(le(s[parent(c)], s[c]));
                }
            }
            sift_down_restores_heap(u, lt, le);
            sift_down_keeps_elements(u, lt, 0);
        }
    }
}

/// The items of a heap in the order in which they are removed, the first `n` of them.
pub open spec fn drained<T>(s: Seq<T>, lt: spec_fn(T, T) -> bool, n: nat) -> Seq<T>
    decreases n,
{
    if n == 0 {
        Seq::empty()
    } else {
        seq![s[0]] + drained(popped(s, lt), lt, (n - 1) as nat)
    }
}

/// Removing all items of a heap gives each of them once, in order.
pub proof fn drained_is_sorted<T>(
    s: Seq<T>,
    lt: spec_fn(T, T) -> bool,
    le: spec_fn(T, T) -> bool,
)
    requires
        refines(lt, le),
        forall|a: T| #[trigger] le(a, a),
        is_heap(s, le),
    ensures
        drained(s, lt, s.len()).len() == s.len(),
        drained(s, lt, s.len()).to_multiset() == s.to_multiset(),
        forall|i: int, j: int|
            0 <= i <= j < s.len() ==> le(
                #[trigger] drained(s, lt, s.len())[i],
                #[trigger] drained(s, lt, s.len())[j],
            ),
    decreases s.len(),
{
    broadcast use vstd::seq_lib::group_to_multiset_ensures;
    broadcast use vstd::multiset::group_multiset_axioms;

    let d = drained(s, lt, s.len());
    if s.len() == 0 {
        assert(d =~= s);
    } else {
        let rest = popped(s, lt);
        operations_keep_items(s, lt, le, s[0]);
        assert(s.to_multiset().count(s[0]) > 0) by {
            assert(s.contains(s[0]));
        }
        assert(rest.len() == rest.to_multiset().len());
        assert(s.len() == s.to_multiset().len());
        drained_is_sorted(rest, lt, le);
        let e = drained(rest, lt, rest.len());
        assert(d =~= seq![s[0]] + e);
        assert(d.to_multiset() =~= e.to_multiset().insert(s[0])) by {
            vstd::seq_lib::lemma_multiset_commutative(seq![s[0]], e);
            assert(seq![s[0]] =~= Seq::<T>::empty().push(s[0]));
        }
        assert(d.to_multiset() =~= s.to_multiset());
        assert forall|i: int, j: int| 0 <= i <= j < s.len() implies le(
            #[trigger] d[i],
            #[trigger] d[j],
        ) by {
            if i == 0 && j > 0 {
                assert(d[j] == e[j - 1]);
                assert(e.contains(e[j - 1]));
                assert(e.to_multiset().count(e[j - 1]) > 0);
                assert(rest.to_multiset().count(e[j - 1]) > 0);
                assert(s.to_multiset().count(e[j - 1]) > 0);
                assert(s.contains(e[j - 1]));
                let k = choose|k: int| 0 <= k < s.len() && s[k] == e[j - 1];
                heap_root_is_least(s, le, k);
            } else if i > 0 {
                assert(d[i] == e[i - 1] && d[j] == e[j - 1]);
            }
        }
    }
}

} // verus!
