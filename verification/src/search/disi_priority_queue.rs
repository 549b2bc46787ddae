//! Queues of scorers, ordered by their current document.
//!
//! A queue holds positions into an array of wrappers that the caller owns and
//! changes; every operation that compares documents takes the array. The queue
//! is a binary heap, so its layout, and with it the order of wrappers on the
//! same document, is a function of the operations applied.

use vstd::prelude::*;

use crate::search::disi_wrapper::DisiWrapper;
use crate::search::scorer::Scorer;
use crate::util::heap::{
    heap_root_is_least, heapified, heapified_is_heap, heapified_keeps_elements, is_heap,
    is_heap_from, lesser_child, parent, refines, removed_root_keeps_others, sift_down, sift_down_keeps_elements,
    sift_down_restores_heap, sift_up, sift_up_keeps_elements, sift_up_restores_heap, swapped,
};

verus! {

/// Returns the first child of a position.
pub fn left_node(node: usize) -> (r: usize)
    requires
        2 * node + 1 <= usize::MAX,
    ensures
        r == 2 * node + 1,
{
    2 * node + 1
}

/// Returns the second child of the parent of `left_node`.
pub fn right_node(left_node: usize) -> (r: usize)
    requires
        left_node < usize::MAX,
    ensures
        r == left_node + 1,
{
    left_node + 1
}

/// Returns the parent of a position, -1 for the root.
pub fn parent_node(node: usize) -> (r: i32)
    requires
        node < i32::MAX,
    ensures
        r == (node + 1) / 2 - 1,
        node == 0 ==> r == -1,
        node > 0 ==> r == parent(node as int),
{
    ((node + 1) / 2) as i32 - 1
}

/// Orders positions by the document of their wrapper.
pub open spec fn by_doc<S: Scorer>(wrappers: Seq<DisiWrapper<S>>) -> spec_fn(usize, usize) -> bool {
    |a: usize, b: usize| wrappers[a as int].doc < wrappers[b as int].doc
}

/// The preorder of positions by the document of their wrapper.
pub open spec fn by_doc_le<S: Scorer>(wrappers: Seq<DisiWrapper<S>>) -> spec_fn(
    usize,
    usize,
) -> bool {
    |a: usize, b: usize| wrappers[a as int].doc <= wrappers[b as int].doc
}

/// Every entry is a position of the array.
pub open spec fn in_bounds(entries: Seq<usize>, len: nat) -> bool {
    forall|i: int| 0 <= i < entries.len() ==> #[trigger] entries[i] < len
}

proof fn lemma_by_doc_refines<S: Scorer>(wrappers: Seq<DisiWrapper<S>>)
    ensures
        refines(by_doc(wrappers), by_doc_le(wrappers)),
{
}

/// A queue of any number of wrappers.
#[derive(Debug)]
pub struct DisiPriorityQueueN {
    heap: Vec<usize>,
    max_size: usize,
}

impl View for DisiPriorityQueueN {
    type V = Seq<usize>;

    closed spec fn view(&self) -> Seq<usize> {
        self.heap@
    }
}

impl DisiPriorityQueueN {
    /// The number of entries that the queue was made for.
    pub closed spec fn max_size(&self) -> nat {
        self.max_size as nat
    }

    /// The number of entries is within what the queue was made for.
    pub closed spec fn wf(&self) -> bool {
        self.max_size < i32::MAX && (self.heap.len() <= self.max_size || self.heap.len() <= 1)
    }

    /// Moves the entry at `i` up while its document is less than that of its
    /// parent.
    fn up_heap<S: Scorer>(&mut self, wrappers: &[DisiWrapper<S>], i: usize)
        requires
            old(self).wf(),
            i < old(self)@.len(),
            in_bounds(old(self)@, wrappers@.len()),
        ensures
            final(self)@ == sift_up(old(self)@, by_doc(wrappers@), i as int),
            final(self).wf(),
            final(self).max_size() == old(self).max_size(),
    {
        let ghost lt = by_doc(wrappers@);
        let mut i: usize = i;
        let node: usize = self.heap[i];
        let node_doc: i32 = wrappers[node].doc;
        let mut j: i32 = parent_node(i);
        let ghost goal = sift_up(old(self)@, lt, i as int);
        assert(self.heap@.update(i as int, node) =~= old(self)@);
        while j >= 0 && node_doc < wrappers[self.heap[j as usize]].doc
            invariant
                lt == by_doc(wrappers@),
                self.wf(),
                self.max_size == old(self).max_size,
                self.heap.len() == old(self).heap.len(),
                i < self.heap.len(),
                in_bounds(self.heap@, wrappers@.len()),
                node < wrappers@.len(),
                node_doc == wrappers@[node as int].doc,
                j == (i + 1) / 2 - 1,
                i > 0 ==> j == parent(i as int),
                goal == sift_up(self.heap@.update(i as int, node), lt, i as int),
            decreases i,
        {
            let ghost c = i as int;
            let ghost before = self.heap@.update(c, node);
            let up: usize = self.heap[j as usize];
            self.heap[i] = up;
            i = j as usize;
            j = parent_node(i);
            assert(self.heap@.update(i as int, node) =~= swapped(before, c, i as int));
        }
        self.heap[i] = node;
    }

    /// Moves the first entry down while a child has a lesser document.
    fn down_heap<S: Scorer>(&mut self, wrappers: &[DisiWrapper<S>])
        requires
            old(self).wf(),
            in_bounds(old(self)@, wrappers@.len()),
        ensures
            final(self)@ == sift_down(old(self)@, by_doc(wrappers@), 0),
            final(self).wf(),
            final(self).max_size() == old(self).max_size(),
    {
        let ghost lt = by_doc(wrappers@);
        let size: usize = self.heap.len();
        if size == 0 {
            return;
        }
        let mut i: usize = 0;
        let node: usize = self.heap[0];
        let node_doc: i32 = wrappers[node].doc;
        let mut j: usize = left_node(i);
        if j < size {
            let mut k: usize = right_node(j);
            if k < size && wrappers[self.heap[k]].doc < wrappers[self.heap[j]].doc {
                j = k;
            }
            if wrappers[self.heap[j]].doc < node_doc {
                let ghost goal = sift_down(old(self)@, lt, 0);
                assert(self.heap@.update(0, node) =~= old(self)@);
                loop
                    invariant_except_break
                        i < j < size,
                        goal == sift_down(self.heap@.update(i as int, node), lt, i as int),
                        j == lesser_child(self.heap@.update(i as int, node), lt, i as int),
                        wrappers@[self.heap@[j as int] as int].doc < node_doc,
                    invariant
                        lt == by_doc(wrappers@),
                        goal == sift_down(old(self)@, lt, 0),
                        size == self.heap.len(),
                        size == old(self).heap.len(),
                        size < i32::MAX,
                        self.wf(),
                        self.max_size == old(self).max_size,
                        in_bounds(self.heap@, wrappers@.len()),
                        node < wrappers@.len(),
                        node_doc == wrappers@[node as int].doc,
                    ensures
                        i < size,
                        size == self.heap.len(),
                        self.max_size == old(self).max_size,
                        goal == self.heap@.update(i as int, node),
                    decreases size - i,
                {
                    let ghost c = i as int;
                    let ghost before = self.heap@.update(c, node);
                    let child: usize = self.heap[j];
                    self.heap[i] = child;
                    i = j;
                    assert(self.heap@.update(i as int, node) =~= swapped(before, c, i as int));
                    let ghost now = self.heap@.update(i as int, node);
                    assert(goal == sift_down(now, lt, i as int));
                    j = left_node(i);
                    if j >= size {
                        break;
                    }
                    k = right_node(j);
                    if k < size && wrappers[self.heap[k]].doc < wrappers[self.heap[j]].doc {
                        j = k;
                    }
                    assert(now[j as int] == self.heap@[j as int]);
                    if wrappers[self.heap[j]].doc >= node_doc {
                        break;
                    }
                }
                self.heap[i] = node;
            }
        }
    }

    /// Creates an empty queue for up to `max_size` entries.
    pub fn new(max_size: usize) -> (r: Self)
        requires
            max_size < i32::MAX,
        ensures
            r@ == Seq::<usize>::empty(),
            r.wf(),
            r.max_size() == max_size,
    {
        DisiPriorityQueueN { heap: Vec::with_capacity(max_size), max_size }
    }

    /// Returns the number of entries.
    pub fn size(&self) -> (r: usize)
        ensures
            r == self@.len(),
    {
        self.heap.len()
    }

    /// Returns the first entry.
    pub fn top(&self) -> (r: Option<usize>)
        ensures
            r == top_of(self@),
    {
        if self.heap.len() == 0 {
            None
        } else {
            Some(self.heap[0])
        }
    }

    /// Returns the entry with the least document among the entries after the
    /// first one.
    pub fn top2<S: Scorer>(&self, wrappers: &[DisiWrapper<S>]) -> (r: Option<usize>)
        requires
            in_bounds(self@, wrappers@.len()),
        ensures
            r == top2_of(self@, by_doc(wrappers@)),
    {
        let size: usize = self.heap.len();
        if size < 2 {
            None
        } else if size == 2 {
            Some(self.heap[1])
        } else if wrappers[self.heap[1]].doc <= wrappers[self.heap[2]].doc {
            Some(self.heap[1])
        } else {
            Some(self.heap[2])
        }
    }

    /// Returns the entries on the document of the first one, in the order in
    /// which they were linked into a list: the last one visited comes first.
    pub fn top_list<S: Scorer>(&self, wrappers: &[DisiWrapper<S>]) -> (r: Vec<usize>)
        requires
            self.wf(),
            in_bounds(self@, wrappers@.len()),
        ensures
            r@ == top_list_of(self@, wrappers@),
    {
        let size: usize = self.heap.len();
        let mut order: Vec<usize> = Vec::with_capacity(size);
        if size == 0 {
            return order;
        }
        let doc: i32 = wrappers[self.heap[0]].doc;
        order.push(self.heap[0]);
        let ghost s = self@;
        if size >= 3 {
            self.collect_top_list(wrappers, doc, 1, &mut order);
            self.collect_top_list(wrappers, doc, 2, &mut order);
        } else if size == 2 && wrappers[self.heap[1]].doc == doc {
            order.push(self.heap[1]);
        }
        proof {
            reveal_with_fuel(on_doc, 3);
            assert(order@ =~= on_doc(s, wrappers@, doc, 0));
        }
        reverse(&mut order);
        order
    }

    fn collect_top_list<S: Scorer>(
        &self,
        wrappers: &[DisiWrapper<S>],
        doc: i32,
        i: usize,
        order: &mut Vec<usize>,
    )
        requires
            in_bounds(self@, wrappers@.len()),
            i < self@.len(),
            self@.len() < i32::MAX,
        ensures
            final(order)@ == old(order)@ + on_doc(self@, wrappers@, doc, i as int),
        decreases self@.len() - i,
    {
        let size: usize = self.heap.len();
        let w: usize = self.heap[i];
        let ghost s = self@;
        if wrappers[w].doc == doc {
            order.push(w);
            let left: usize = left_node(i);
            let right: usize = right_node(left);
            if right < size {
                self.collect_top_list(wrappers, doc, left, order);
                self.collect_top_list(wrappers, doc, right, order);
            } else if left < size && wrappers[self.heap[left]].doc == doc {
                order.push(self.heap[left]);
            }
            proof {
                reveal_with_fuel(on_doc, 3);
            }
        }
        assert(order@ =~= old(order)@ + on_doc(s, wrappers@, doc, i as int));
    }

    /// Adds an entry and returns the new first entry.
    pub fn add<S: Scorer>(&mut self, wrappers: &[DisiWrapper<S>], entry: usize) -> (r: usize)
        requires
            old(self).wf(),
            old(self)@.len() < old(self).max_size(),
            in_bounds(old(self)@, wrappers@.len()),
            entry < wrappers@.len(),
        ensures
            final(self)@ == sift_up(
                old(self)@.push(entry),
                by_doc(wrappers@),
                old(self)@.len() as int,
            ),
            final(self).wf(),
            final(self).max_size() == old(self).max_size(),
            final(self)@.to_multiset() == old(self)@.to_multiset().insert(entry),
            is_heap(old(self)@, by_doc_le(wrappers@)) ==> is_heap(
                final(self)@,
                by_doc_le(wrappers@),
            ),
            r == final(self)@[0],
    {
        self.heap.push(entry);
        let last: usize = self.heap.len() - 1;
        proof {
            broadcast use vstd::seq_lib::group_to_multiset_ensures;

            lemma_by_doc_refines(wrappers@);
            sift_up_keeps_elements(old(self)@.push(entry), by_doc(wrappers@), last as int);
            if is_heap(old(self)@, by_doc_le(wrappers@)) {
                sift_up_restores_heap(
                    old(self)@,
                    by_doc(wrappers@),
                    by_doc_le(wrappers@),
                    entry,
                );
            }
        }
        self.up_heap(wrappers, last);
        self.heap[0]
    }

    /// Adds all `entries` at once.
    pub fn add_all<S: Scorer>(&mut self, wrappers: &[DisiWrapper<S>], entries: &[usize])
        requires
            old(self).wf(),
            old(self)@.len() + entries@.len() <= old(self).max_size(),
            in_bounds(old(self)@, wrappers@.len()),
            in_bounds(entries@, wrappers@.len()),
        ensures
            entries@.len() == 0 ==> final(self)@ == old(self)@,
            entries@.len() > 0 ==> final(self)@ == heapified(
                old(self)@ + entries@,
                by_doc(wrappers@),
                ((old(self)@.len() + entries@.len()) / 2) as int,
            ),
            final(self).wf(),
            final(self).max_size() == old(self).max_size(),
            final(self)@.to_multiset() == (old(self)@ + entries@).to_multiset(),
            entries@.len() > 0 ==> is_heap(final(self)@, by_doc_le(wrappers@)),
    {
        let ghost lt = by_doc(wrappers@);
        let ghost all = old(self)@ + entries@;
        if entries.len() == 0 {
            assert(all =~= old(self)@);
            return;
        }
        self.heap.extend_from_slice(entries);
        assert(self.heap@ =~= all);
        let size: usize = self.heap.len();
        let first_leaf_index: usize = size / 2;
        let mut roots: usize = first_leaf_index;
        let ghost goal = heapified(all, lt, first_leaf_index as int);
        proof {
            heapified_keeps_elements(all, lt, first_leaf_index as int);
            lemma_by_doc_refines(wrappers@);
            heapified_is_heap(all, lt, by_doc_le(wrappers@), first_leaf_index as int);
        }
        while roots > 0
            invariant
                lt == by_doc(wrappers@),
                goal == heapified(self.heap@, lt, roots as int),
                size == self.heap.len(),
                first_leaf_index == size / 2,
                roots <= first_leaf_index,
                self.wf(),
                size < i32::MAX,
                self.max_size == old(self).max_size,
                in_bounds(self.heap@, wrappers@.len()),
            decreases roots,
        {
            let root_index: usize = roots - 1;
            let ghost start = self.heap@;
            let mut parent_index: usize = root_index;
            let parent: usize = self.heap[parent_index];
            let mut sifting: bool = parent_index < first_leaf_index;
            assert(self.heap@.update(parent_index as int, parent) =~= start);
            while sifting
                invariant
                    lt == by_doc(wrappers@),
                    size == self.heap.len(),
                    first_leaf_index == size / 2,
                    self.wf(),
                    size < i32::MAX,
                    self.max_size == old(self).max_size,
                    in_bounds(self.heap@, wrappers@.len()),
                    parent < wrappers@.len(),
                    parent_index < size,
                    sifting ==> parent_index < first_leaf_index,
                    sift_down(start, lt, root_index as int) == if sifting {
                        sift_down(
                            self.heap@.update(parent_index as int, parent),
                            lt,
                            parent_index as int,
                        )
                    } else {
                        self.heap@.update(parent_index as int, parent)
                    },
                decreases size - parent_index, if sifting { 1int } else { 0int },
            {
                let ghost c = parent_index as int;
                let ghost now = self.heap@.update(c, parent);
                let mut child_index: usize = left_node(parent_index);
                let right_child_index: usize = right_node(child_index);
                let mut child: usize = self.heap[child_index];
                if right_child_index < size && wrappers[self.heap[right_child_index]].doc
                    < wrappers[child].doc {
                    child = self.heap[right_child_index];
                    child_index = right_child_index;
                }
                assert(child_index == lesser_child(now, lt, c));
                assert(child == now[child_index as int]);
                if wrappers[child].doc >= wrappers[parent].doc {
                    sifting = false;
                } else {
                    self.heap[parent_index] = child;
                    parent_index = child_index;
                    assert(self.heap@.update(parent_index as int, parent) =~= swapped(
                        now,
                        c,
                        parent_index as int,
                    ));
                    assert(sift_down(now, lt, c) == sift_down(
                        swapped(now, c, parent_index as int),
                        lt,
                        parent_index as int,
                    ));
                    sifting = parent_index < first_leaf_index;
                }
            }
            self.heap[parent_index] = parent;
            roots = root_index;
        }
    }

    /// Removes and returns the first entry.
    pub fn pop<S: Scorer>(&mut self, wrappers: &[DisiWrapper<S>]) -> (r: Option<usize>)
        requires
            old(self).wf(),
            in_bounds(old(self)@, wrappers@.len()),
        ensures
            r == top_of(old(self)@),
            final(self).wf(),
            final(self).max_size() == old(self).max_size(),
            r is None ==> final(self)@ == old(self)@,
            r is Some ==> final(self)@ == sift_down(
                old(self)@.update(0, old(self)@.last()).drop_last(),
                by_doc(wrappers@),
                0,
            ),
            r matches Some(e) ==> final(self)@.to_multiset().insert(e) == old(self)@.to_multiset(),
            is_heap(old(self)@, by_doc_le(wrappers@)) ==> is_heap(
                final(self)@,
                by_doc_le(wrappers@),
            ),
    {
        if self.heap.len() == 0 {
            return None;
        }
        let result: usize = self.heap.swap_remove(0);
        proof {
            let s = old(self)@;
            let rest = s.update(0, s.last()).drop_last();
            removed_root_keeps_others(s);
            assert(self.heap@ =~= rest);
            lemma_by_doc_refines(wrappers@);
            sift_down_keeps_elements(rest, by_doc(wrappers@), 0);
            if is_heap(s, by_doc_le(wrappers@)) {
                assert forall|c: int| #![trigger rest[c]]
                    0 < c < rest.len() && parent(c) >= 1 implies by_doc_le(wrappers@)(
                    rest[parent(c)],
                    rest[c],
                ) by {
                    assert(by_doc_le(wrappers@)(s[parent(c)], s[c]));
                }
                sift_down_restores_heap(rest, by_doc(wrappers@), by_doc_le(wrappers@));
            }
        }
        self.down_heap(wrappers);
        Some(result)
    }

    /// Restores the order after the document of the first entry has grown.
    pub fn update_top<S: Scorer>(&mut self, wrappers: &[DisiWrapper<S>]) -> (r: Option<usize>)
        requires
            old(self).wf(),
            in_bounds(old(self)@, wrappers@.len()),
        ensures
            final(self)@ == sift_down(old(self)@, by_doc(wrappers@), 0),
            final(self)@.to_multiset() == old(self)@.to_multiset(),
            final(self).wf(),
            final(self).max_size() == old(self).max_size(),
            is_heap_from(old(self)@, by_doc_le(wrappers@), 1) ==> is_heap(
                final(self)@,
                by_doc_le(wrappers@),
            ),
            r == top_of(final(self)@),
    {
        proof {
            lemma_by_doc_refines(wrappers@);
            sift_down_keeps_elements(old(self)@, by_doc(wrappers@), 0);
            if is_heap_from(old(self)@, by_doc_le(wrappers@), 1) {
                sift_down_restores_heap(old(self)@, by_doc(wrappers@), by_doc_le(wrappers@));
            }
        }
        self.down_heap(wrappers);
        self.top()
    }

    /// Replaces the first entry and restores the order.
    pub fn update_top_with<S: Scorer>(
        &mut self,
        wrappers: &[DisiWrapper<S>],
        replacement: usize,
    ) -> (r: Option<usize>)
        requires
            old(self).wf(),
            in_bounds(old(self)@, wrappers@.len()),
            replacement < wrappers@.len(),
        ensures
            final(self)@ == sift_down(
                with_top(old(self)@, replacement),
                by_doc(wrappers@),
                0,
            ),
            final(self)@.to_multiset() == with_top(old(self)@, replacement).to_multiset(),
            final(self).wf(),
            final(self).max_size() == old(self).max_size(),
            is_heap_from(old(self)@, by_doc_le(wrappers@), 1) ==> is_heap(
                final(self)@,
                by_doc_le(wrappers@),
            ),
            r == top_of(final(self)@),
    {
        if self.heap.len() == 0 {
            self.heap.push(replacement);
        } else {
            self.heap[0] = replacement;
        }
        proof {
            assert(self.heap@ =~= with_top(old(self)@, replacement));
            assert(is_heap_from(old(self)@, by_doc_le(wrappers@), 1) ==> is_heap_from(
                self@,
                by_doc_le(wrappers@),
                1,
            )) by {
                assert forall|c: int| #![trigger self@[c]]
                    is_heap_from(old(self)@, by_doc_le(wrappers@), 1) && 0 < c < self@.len()
                        && parent(c) >= 1 implies by_doc_le(wrappers@)(
                    self@[parent(c)],
                    self@[c],
                ) by {
                    assert(by_doc_le(wrappers@)(old(self)@[parent(c)], old(self)@[c]));
                }
            }
        }
        self.update_top(wrappers)
    }

    /// Removes every entry.
    pub fn clear(&mut self)
        requires
            old(self).wf(),
        ensures
            final(self)@ == Seq::<usize>::empty(),
            final(self).wf(),
            final(self).max_size() == old(self).max_size(),
    {
        self.heap.clear();
    }

    /// Returns the entries in heap order.
    pub fn entries(&self) -> (r: &[usize])
        ensures
            r@ == self@,
    {
        self.heap.as_slice()
    }
}

/// The first entry.
pub open spec fn top_of(s: Seq<usize>) -> Option<usize> {
    if s.len() == 0 {
        None
    } else {
        Some(s[0])
    }
}

/// The lesser child of the first entry.
pub open spec fn top2_of(s: Seq<usize>, lt: spec_fn(usize, usize) -> bool) -> Option<usize> {
    if s.len() < 2 {
        None
    } else {
        Some(s[lesser_child(s, lt, 0)])
    }
}

/// `s` with its first entry replaced.
pub open spec fn with_top(s: Seq<usize>, replacement: usize) -> Seq<usize> {
    if s.len() == 0 {
        seq![replacement]
    } else {
        s.update(0, replacement)
    }
}

/// The entries on `doc` that are reached from position `i` through entries on
/// `doc`, parents first.
pub open spec fn on_doc<S: Scorer>(
    s: Seq<usize>,
    wrappers: Seq<DisiWrapper<S>>,
    doc: i32,
    i: int,
) -> Seq<usize>
    decreases (if i < s.len() { s.len() - i } else { 0 }),
{
    if 0 <= i < s.len() && wrappers[s[i] as int].doc == doc {
        seq![s[i]] + on_doc(s, wrappers, doc, 2 * i + 1) + on_doc(s, wrappers, doc, 2 * i + 2)
    } else {
        Seq::empty()
    }
}

/// The entries on the document of the first one, the last one visited first.
pub open spec fn top_list_of<S: Scorer>(s: Seq<usize>, wrappers: Seq<DisiWrapper<S>>) -> Seq<
    usize,
> {
    if s.len() == 0 {
        Seq::empty()
    } else {
        on_doc(s, wrappers, wrappers[s[0] as int].doc, 0).reverse()
    }
}

/// A queue of at most two wrappers.
#[derive(Debug)]
pub struct DisiPriorityQueue2 {
    heap: Vec<usize>,
}

impl View for DisiPriorityQueue2 {
    type V = Seq<usize>;

    closed spec fn view(&self) -> Seq<usize> {
        self.heap@
    }
}

impl Default for DisiPriorityQueue2 {
    fn default() -> (r: Self)
        ensures
            r@ == Seq::<usize>::empty(),
            r.wf(),
    {
        Self::new()
    }
}

impl DisiPriorityQueue2 {
    /// There are at most two entries.
    pub closed spec fn wf(&self) -> bool {
        self.heap.len() <= 2
    }

    /// Creates an empty queue.
    pub fn new() -> (r: Self)
        ensures
            r@ == Seq::<usize>::empty(),
            r.wf(),
    {
        DisiPriorityQueue2 { heap: Vec::with_capacity(2) }
    }

    /// Returns the number of entries.
    pub fn size(&self) -> (r: usize)
        ensures
            r == self@.len(),
    {
        self.heap.len()
    }

    /// Returns the first entry.
    pub fn top(&self) -> (r: Option<usize>)
        ensures
            r == top_of(self@),
    {
        if self.heap.len() == 0 {
            None
        } else {
            Some(self.heap[0])
        }
    }

    /// Returns the second entry.
    pub fn top2(&self) -> (r: Option<usize>)
        requires
            self.wf(),
        ensures
            forall|lt: spec_fn(usize, usize) -> bool| r == #[trigger] top2_of(self@, lt),
    {
        if self.heap.len() < 2 {
            None
        } else {
            Some(self.heap[1])
        }
    }

    /// Returns the entries on the document of the first one, the last one
    /// visited first.
    pub fn top_list<S: Scorer>(&self, wrappers: &[DisiWrapper<S>]) -> (r: Vec<usize>)
        requires
            self.wf(),
            in_bounds(self@, wrappers@.len()),
        ensures
            r@ == top_list_of(self@, wrappers@),
    {
        let mut order: Vec<usize> = Vec::with_capacity(2);
        if self.heap.len() > 0 {
            let top: usize = self.heap[0];
            order.push(top);
            if self.heap.len() > 1 {
                let top2: usize = self.heap[1];
                if wrappers[top].doc == wrappers[top2].doc {
                    order.push(top2);
                }
            }
            proof {
                reveal_with_fuel(on_doc, 3);
                assert(order@ =~= on_doc(self@, wrappers@, wrappers@[top as int].doc, 0));
            }
        }
        reverse(&mut order);
        assert(order@ =~= top_list_of(self@, wrappers@));
        order
    }

    /// Adds an entry and returns the new first entry.
    pub fn add<S: Scorer>(&mut self, wrappers: &[DisiWrapper<S>], entry: usize) -> (r: usize)
        requires
            old(self).wf(),
            old(self)@.len() < 2,
            in_bounds(old(self)@, wrappers@.len()),
            entry < wrappers@.len(),
        ensures
            final(self).wf(),
            final(self)@ == sift_up(
                old(self)@.push(entry),
                by_doc(wrappers@),
                old(self)@.len() as int,
            ),
            r == final(self)@[0],
    {
        self.heap.push(entry);
        proof {
            reveal_with_fuel(sift_up, 2);
            reveal_with_fuel(sift_down, 2);
        }
        if self.heap.len() == 1 {
            entry
        } else {
            self.update_top(wrappers);
            self.heap[0]
        }
    }

    /// Adds all `entries`, one after the other.
    pub fn add_all<S: Scorer>(&mut self, wrappers: &[DisiWrapper<S>], entries: &[usize])
        requires
            old(self).wf(),
            old(self)@.len() + entries@.len() <= 2,
            in_bounds(old(self)@, wrappers@.len()),
            in_bounds(entries@, wrappers@.len()),
        ensures
            final(self).wf(),
            entries@.len() == 0 ==> final(self)@ == old(self)@,
            entries@.len() > 0 ==> final(self)@ == heapified(
                old(self)@ + entries@,
                by_doc(wrappers@),
                ((old(self)@.len() + entries@.len()) / 2) as int,
            ),
    {
        proof {
            reveal_with_fuel(heapified, 2);
            reveal_with_fuel(sift_down, 2);
            reveal_with_fuel(sift_up, 2);
        }
        if entries.len() > 0 {
            self.add(wrappers, entries[0]);
            if entries.len() > 1 {
                assert(self@ =~= seq![entries@[0]]);
                self.add(wrappers, entries[1]);
                assert(old(self)@ + entries@ =~= seq![entries@[0], entries@[1]]);
                assert(seq![entries@[0]].push(entries@[1]) =~= seq![entries@[0], entries@[1]]);
            } else {
                assert(old(self)@ + entries@ =~= old(self)@.push(entries@[0]));
            }
        }
    }

    /// Removes and returns the first entry.
    pub fn pop(&mut self) -> (r: Option<usize>)
        requires
            old(self).wf(),
        ensures
            final(self).wf(),
            r == top_of(old(self)@),
            r is None ==> final(self)@ == old(self)@,
            r is Some ==> final(self)@ == old(self)@.remove(0),
            r is Some ==> forall|lt: spec_fn(usize, usize) -> bool|
                final(self)@ == #[trigger] sift_down(
                    old(self)@.update(0, old(self)@.last()).drop_last(),
                    lt,
                    0,
                ),
    {
        if self.heap.len() == 0 {
            None
        } else {
            let r: usize = self.heap.remove(0);
            assert(old(self)@.update(0, old(self)@.last()).drop_last() =~= self@);
            Some(r)
        }
    }

    /// Restores the order after the document of the first entry has grown.
    pub fn update_top<S: Scorer>(&mut self, wrappers: &[DisiWrapper<S>]) -> (r: Option<usize>)
        requires
            old(self).wf(),
            in_bounds(old(self)@, wrappers@.len()),
        ensures
            final(self).wf(),
            final(self)@ == sift_down(old(self)@, by_doc(wrappers@), 0),
            r == top_of(final(self)@),
    {
        proof {
            reveal_with_fuel(sift_down, 2);
        }
        if self.heap.len() == 2 && wrappers[self.heap[1]].doc < wrappers[self.heap[0]].doc {
            let first: usize = self.heap[0];
            let second: usize = self.heap[1];
            self.heap[0] = second;
            self.heap[1] = first;
            assert(self@ =~= swapped(old(self)@, 0, 1));
        }
        self.top()
    }

    /// Replaces the first entry and restores the order.
    pub fn update_top_with<S: Scorer>(
        &mut self,
        wrappers: &[DisiWrapper<S>],
        replacement: usize,
    ) -> (r: Option<usize>)
        requires
            old(self).wf(),
            in_bounds(old(self)@, wrappers@.len()),
            replacement < wrappers@.len(),
        ensures
            final(self).wf(),
            final(self)@ == sift_down(
                with_top(old(self)@, replacement),
                by_doc(wrappers@),
                0,
            ),
            r == top_of(final(self)@),
    {
        if self.heap.len() == 0 {
            self.heap.push(replacement);
        } else {
            self.heap[0] = replacement;
        }
        assert(self.heap@ =~= with_top(old(self)@, replacement));
        self.update_top(wrappers)
    }

    /// Removes every entry.
    pub fn clear(&mut self)
        ensures
            final(self).wf(),
            final(self)@ == Seq::<usize>::empty(),
    {
        self.heap.clear();
    }

    /// Returns the entries in heap order.
    pub fn entries(&self) -> (r: &[usize])
        ensures
            r@ == self@,
    {
        self.heap.as_slice()
    }
}

/// A queue of wrappers, with a simpler form for at most two of them.
#[derive(Debug)]
pub enum DisiPriorityQueue {
    /// At most two wrappers.
    Two(DisiPriorityQueue2),
    /// Any number of wrappers.
    N(DisiPriorityQueueN),
}

impl View for DisiPriorityQueue {
    type V = Seq<usize>;

    open spec fn view(&self) -> Seq<usize> {
        match self {
            DisiPriorityQueue::Two(q) => q@,
            DisiPriorityQueue::N(q) => q@,
        }
    }
}

impl DisiPriorityQueue {
    /// The number of entries that the queue can hold.
    pub open spec fn max_size(&self) -> nat {
        match self {
            DisiPriorityQueue::Two(q) => 2,
            DisiPriorityQueue::N(q) => q.max_size(),
        }
    }

    /// The number of entries is within what the queue was made for.
    pub open spec fn wf(&self) -> bool {
        match self {
            DisiPriorityQueue::Two(q) => q.wf(),
            DisiPriorityQueue::N(q) => q.wf(),
        }
    }

    /// Creates an empty queue for up to `max_size` entries.
    pub fn of_max_size(max_size: usize) -> (r: Self)
        requires
            max_size < i32::MAX,
        ensures
            r.wf(),
            r@ == Seq::<usize>::empty(),
            r.max_size() == if max_size <= 2 {
                2
            } else {
                max_size as nat
            },
    {
        if max_size <= 2 {
            DisiPriorityQueue::Two(DisiPriorityQueue2::new())
        } else {
            DisiPriorityQueue::N(DisiPriorityQueueN::new(max_size))
        }
    }

    /// Returns the number of entries.
    pub fn size(&self) -> (r: usize)
        ensures
            r == self@.len(),
    {
        match self {
            DisiPriorityQueue::Two(q) => q.size(),
            DisiPriorityQueue::N(q) => q.size(),
        }
    }

    /// Returns the first entry.
    pub fn top(&self) -> (r: Option<usize>)
        ensures
            r == top_of(self@),
    {
        match self {
            DisiPriorityQueue::Two(q) => q.top(),
            DisiPriorityQueue::N(q) => q.top(),
        }
    }

    /// Returns the entry with the least document among the entries after the
    /// first one.
    pub fn top2<S: Scorer>(&self, wrappers: &[DisiWrapper<S>]) -> (r: Option<usize>)
        requires
            self.wf(),
            in_bounds(self@, wrappers@.len()),
        ensures
            r == top2_of(self@, by_doc(wrappers@)),
    {
        match self {
            DisiPriorityQueue::Two(q) => q.top2(),
            DisiPriorityQueue::N(q) => q.top2(wrappers),
        }
    }

    /// Returns the entries on the document of the first one, the last one
    /// visited first.
    pub fn top_list<S: Scorer>(&self, wrappers: &[DisiWrapper<S>]) -> (r: Vec<usize>)
        requires
            self.wf(),
            in_bounds(self@, wrappers@.len()),
        ensures
            r@ == top_list_of(self@, wrappers@),
    {
        match self {
            DisiPriorityQueue::Two(q) => q.top_list(wrappers),
            DisiPriorityQueue::N(q) => q.top_list(wrappers),
        }
    }

    /// Adds an entry and returns the new first entry.
    pub fn add<S: Scorer>(&mut self, wrappers: &[DisiWrapper<S>], entry: usize) -> (r: usize)
        requires
            old(self).wf(),
            old(self)@.len() < old(self).max_size(),
            in_bounds(old(self)@, wrappers@.len()),
            entry < wrappers@.len(),
        ensures
            final(self).wf(),
            final(self).max_size() == old(self).max_size(),
            final(self)@ == sift_up(
                old(self)@.push(entry),
                by_doc(wrappers@),
                old(self)@.len() as int,
            ),
            r == final(self)@[0],
    {
        match self {
            DisiPriorityQueue::Two(q) => q.add(wrappers, entry),
            DisiPriorityQueue::N(q) => q.add(wrappers, entry),
        }
    }

    /// Adds all `entries` at once.
    pub fn add_all<S: Scorer>(&mut self, wrappers: &[DisiWrapper<S>], entries: &[usize])
        requires
            old(self).wf(),
            old(self)@.len() + entries@.len() <= old(self).max_size(),
            in_bounds(old(self)@, wrappers@.len()),
            in_bounds(entries@, wrappers@.len()),
        ensures
            final(self).wf(),
            final(self).max_size() == old(self).max_size(),
            entries@.len() == 0 ==> final(self)@ == old(self)@,
            entries@.len() > 0 ==> final(self)@ == heapified(
                old(self)@ + entries@,
                by_doc(wrappers@),
                ((old(self)@.len() + entries@.len()) / 2) as int,
            ),
    {
        match self {
            DisiPriorityQueue::Two(q) => q.add_all(wrappers, entries),
            DisiPriorityQueue::N(q) => q.add_all(wrappers, entries),
        }
    }

    /// Removes and returns the first entry.
    pub fn pop<S: Scorer>(&mut self, wrappers: &[DisiWrapper<S>]) -> (r: Option<usize>)
        requires
            old(self).wf(),
            in_bounds(old(self)@, wrappers@.len()),
        ensures
            final(self).wf(),
            final(self).max_size() == old(self).max_size(),
            r == top_of(old(self)@),
            r is None ==> final(self)@ == old(self)@,
            r is Some ==> final(self)@ == sift_down(
                old(self)@.update(0, old(self)@.last()).drop_last(),
                by_doc(wrappers@),
                0,
            ),
    {
        match self {
            DisiPriorityQueue::Two(q) => q.pop(),
            DisiPriorityQueue::N(q) => q.pop(wrappers),
        }
    }

    /// Restores the order after the document of the first entry has grown.
    pub fn update_top<S: Scorer>(&mut self, wrappers: &[DisiWrapper<S>]) -> (r: Option<usize>)
        requires
            old(self).wf(),
            in_bounds(old(self)@, wrappers@.len()),
        ensures
            final(self).wf(),
            final(self).max_size() == old(self).max_size(),
            final(self)@ == sift_down(old(self)@, by_doc(wrappers@), 0),
            r == top_of(final(self)@),
    {
        match self {
            DisiPriorityQueue::Two(q) => q.update_top(wrappers),
            DisiPriorityQueue::N(q) => q.update_top(wrappers),
        }
    }

    /// Replaces the first entry and restores the order.
    pub fn update_top_with<S: Scorer>(
        &mut self,
        wrappers: &[DisiWrapper<S>],
        replacement: usize,
    ) -> (r: Option<usize>)
        requires
            old(self).wf(),
            in_bounds(old(self)@, wrappers@.len()),
            replacement < wrappers@.len(),
        ensures
            final(self).wf(),
            final(self).max_size() == old(self).max_size(),
            final(self)@ == sift_down(
                with_top(old(self)@, replacement),
                by_doc(wrappers@),
                0,
            ),
            r == top_of(final(self)@),
    {
        match self {
            DisiPriorityQueue::Two(q) => q.update_top_with(wrappers, replacement),
            DisiPriorityQueue::N(q) => q.update_top_with(wrappers, replacement),
        }
    }

    /// Removes every entry.
    pub fn clear(&mut self)
        requires
            old(self).wf(),
        ensures
            final(self).wf(),
            final(self).max_size() == old(self).max_size(),
            final(self)@ == Seq::<usize>::empty(),
    {
        match self {
            DisiPriorityQueue::Two(q) => q.clear(),
            DisiPriorityQueue::N(q) => q.clear(),
        }
    }

    /// Returns the entries in heap order.
    pub fn entries(&self) -> (r: &[usize])
        ensures
            r@ == self@,
    {
        match self {
            DisiPriorityQueue::Two(q) => q.entries(),
            DisiPriorityQueue::N(q) => q.entries(),
        }
    }
}

fn reverse(v: &mut Vec<usize>)
    ensures
        final(v)@ == old(v)@.reverse(),
{
    let n: usize = v.len();
    let mut i: usize = 0;
    while i < n / 2
        invariant
            n == v.len(),
            n == old(v).len(),
            i <= n / 2,
            forall|k: int| 0 <= k < n ==> #[trigger] v@[k] == if k < i || k >= n - i {
                old(v)@[n - 1 - k]
            } else {
                old(v)@[k]
            },
        decreases n / 2 - i,
    {
        let a: usize = v[i];
        let b: usize = v[n - 1 - i];
        v[i] = b;
        v[n - 1 - i] = a;
        i += 1;
    }
    assert(v@ =~= old(v)@.reverse());
}

/// An entry of a queue on its least document is on the list of the first
/// document.
proof fn lemma_on_doc_complete<S: Scorer>(
    s: Seq<usize>,
    wrappers: Seq<DisiWrapper<S>>,
    doc: i32,
    i: int,
    j: int,
)
    requires
        0 <= i <= j < s.len(),
        descends(i, j),
        is_heap(s, by_doc_le(wrappers)),
        wrappers[s[j] as int].doc == doc,
        forall|k: int| 0 <= k < s.len() ==> doc <= wrappers[#[trigger] s[k] as int].doc,
    ensures
        on_doc(s, wrappers, doc, i).contains(s[j]),
        wrappers[s[i] as int].doc == doc,
    decreases j - i,
{
    lemma_ancestor_on_doc(s, wrappers, doc, i, j);
    let list = on_doc(s, wrappers, doc, i);
    let left = on_doc(s, wrappers, doc, 2 * i + 1);
    let right = on_doc(s, wrappers, doc, 2 * i + 2);
    assert(list == seq![s[i]] + left + right);
    if i == j {
        assert(list[0] == s[j]);
    } else {
        lemma_descends_split(i, j);
        if descends(2 * i + 1, j) {
            lemma_on_doc_complete(s, wrappers, doc, 2 * i + 1, j);
            let k = choose|k: int| 0 <= k < left.len() && left[k] == s[j];
            assert(list[1 + k] == s[j]);
        } else {
            lemma_on_doc_complete(s, wrappers, doc, 2 * i + 2, j);
            let k = choose|k: int| 0 <= k < right.len() && right[k] == s[j];
            assert(list[1 + left.len() + k] == s[j]);
        }
    }
}

/// `j` is `i` or a descendant of it.
spec fn descends(i: int, j: int) -> bool
    decreases j,
{
    j == i || (j > i && j > 0 && i >= 0 && descends(i, parent(j)))
}

proof fn lemma_descends_from_root(j: int)
    requires
        0 <= j,
    ensures
        descends(0, j),
    decreases j,
{
    if j > 0 {
        lemma_descends_from_root(parent(j));
    }
}

proof fn lemma_descends_split(i: int, j: int)
    requires
        0 <= i < j,
        descends(i, j),
    ensures
        2 * i + 1 <= j,
        descends(2 * i + 1, j) || (2 * i + 2 <= j && descends(2 * i + 2, j)),
    decreases j,
{
    if parent(j) != i {
        lemma_descends_le(i, parent(j));
        lemma_descends_split(i, parent(j));
    }
}

proof fn lemma_descends_disjoint(a: int, b: int, j: int)
    requires
        0 < a < b,
        parent(a) == parent(b),
        descends(a, j),
    ensures
        !descends(b, j),
    decreases j,
{
    if j == a {
    } else if j == b {
        assert(descends(a, parent(b)));
        lemma_descends_le(a, parent(b));
    } else if descends(b, j) {
        lemma_descends_disjoint(a, b, parent(j));
    }
}

proof fn lemma_descends_le(i: int, j: int)
    requires
        descends(i, j),
    ensures
        i <= j,
{
}

proof fn lemma_ancestor_on_doc<S: Scorer>(
    s: Seq<usize>,
    wrappers: Seq<DisiWrapper<S>>,
    doc: i32,
    i: int,
    j: int,
)
    requires
        0 <= i <= j < s.len(),
        descends(i, j),
        is_heap(s, by_doc_le(wrappers)),
        wrappers[s[j] as int].doc == doc,
        forall|k: int| 0 <= k < s.len() ==> doc <= wrappers[#[trigger] s[k] as int].doc,
    ensures
        wrappers[s[i] as int].doc == doc,
    decreases j,
{
    if i < j {
        let p = parent(j);
        assert(by_doc_le(wrappers)(s[p], s[j]));
        assert(doc <= wrappers[s[p] as int].doc);
        lemma_descends_le(i, p);
        lemma_ancestor_on_doc(s, wrappers, doc, i, p);
    }
}

/// The positions that [`on_doc`] visits.
spec fn positions_on_doc<S: Scorer>(
    s: Seq<usize>,
    wrappers: Seq<DisiWrapper<S>>,
    doc: i32,
    i: int,
) -> Seq<int>
    decreases (if i < s.len() { s.len() - i } else { 0 }),
{
    if 0 <= i < s.len() && wrappers[s[i] as int].doc == doc {
        seq![i] + positions_on_doc(s, wrappers, doc, 2 * i + 1) + positions_on_doc(
            s,
            wrappers,
            doc,
            2 * i + 2,
        )
    } else {
        Seq::empty()
    }
}

proof fn lemma_positions_on_doc<S: Scorer>(
    s: Seq<usize>,
    wrappers: Seq<DisiWrapper<S>>,
    doc: i32,
    i: int,
)
    requires
        0 <= i,
    ensures
        on_doc(s, wrappers, doc, i).len() == positions_on_doc(s, wrappers, doc, i).len(),
        forall|k: int| 0 <= k < on_doc(s, wrappers, doc, i).len() ==> {
            let p = #[trigger] positions_on_doc(s, wrappers, doc, i)[k];
            &&& i <= p < s.len()
            &&& descends(i, p)
            &&& wrappers[s[p] as int].doc == doc
            &&& on_doc(s, wrappers, doc, i)[k] == s[p]
        },
        positions_on_doc(s, wrappers, doc, i).no_duplicates(),
    decreases (if i < s.len() { s.len() - i } else { 0 }),
{
    if i < s.len() && wrappers[s[i] as int].doc == doc {
        let l = 2 * i + 1;
        let r = 2 * i + 2;
        lemma_positions_on_doc(s, wrappers, doc, l);
        lemma_positions_on_doc(s, wrappers, doc, r);
        let ps = positions_on_doc(s, wrappers, doc, i);
        let pl = positions_on_doc(s, wrappers, doc, l);
        let pr = positions_on_doc(s, wrappers, doc, r);
        let list = on_doc(s, wrappers, doc, i);
        assert(ps == seq![i] + pl + pr);
        assert(list == seq![s[i]] + on_doc(s, wrappers, doc, l) + on_doc(s, wrappers, doc, r));
        assert forall|k: int| 0 <= k < list.len() implies {
            let p = #[trigger] ps[k];
            &&& i <= p < s.len()
            &&& descends(i, p)
            &&& wrappers[s[p] as int].doc == doc
            &&& list[k] == s[p]
        } by {
            if k == 0 {
            } else if k < 1 + pl.len() {
                assert(ps[k] == pl[k - 1]);
                lemma_descends_child(i, l, ps[k]);
            } else {
                assert(ps[k] == pr[k - 1 - pl.len()]);
                lemma_descends_child(i, r, ps[k]);
            }
        }
        assert forall|a: int, b: int| 0 <= a < b < ps.len() implies ps[a] != ps[b] by {
            if a == 0 {
                if b < 1 + pl.len() {
                    assert(ps[b] == pl[b - 1]);
                } else {
                    assert(ps[b] == pr[b - 1 - pl.len()]);
                }
            } else if b < 1 + pl.len() {
                assert(ps[a] == pl[a - 1] && ps[b] == pl[b - 1]);
            } else if a >= 1 + pl.len() {
                assert(ps[a] == pr[a - 1 - pl.len()] && ps[b] == pr[b - 1 - pl.len()]);
            } else {
                assert(ps[a] == pl[a - 1]);
                assert(ps[b] == pr[b - 1 - pl.len()]);
                lemma_descends_disjoint(l, r, ps[a]);
            }
        }
    }
}

proof fn lemma_descends_child(i: int, c: int, j: int)
    requires
        0 <= i,
        c > 0,
        parent(c) == i,
        descends(c, j),
    ensures
        descends(i, j),
    decreases j,
{
    if j == c {
        assert(descends(i, parent(j)));
    } else {
        lemma_descends_child(i, c, parent(j));
        lemma_descends_le(c, j);
    }
}

/// The list of a queue holds the entries on its least document, and no others;
/// each entry is on it once when the queue holds each one once.
pub proof fn top_list_is_least_document<S: Scorer>(
    s: Seq<usize>,
    wrappers: Seq<DisiWrapper<S>>,
    entry: usize,
)
    requires
        is_heap(s, by_doc_le(wrappers)),
    ensures
        top_list_of(s, wrappers).contains(entry) <==> {
            &&& s.contains(entry)
            &&& forall|k: int| 0 <= k < s.len() ==> wrappers[entry as int].doc <= wrappers[
            #[trigger] s[k] as int].doc
        },
        s.no_duplicates() ==> top_list_of(s, wrappers).no_duplicates(),
{
    if s.len() > 0 {
        let le = by_doc_le(wrappers);
        let doc = wrappers[s[0] as int].doc;
        let list = on_doc(s, wrappers, doc, 0);
        let ps = positions_on_doc(s, wrappers, doc, 0);
        lemma_positions_on_doc(s, wrappers, doc, 0);
        assert forall|k: int| 0 <= k < s.len() implies doc <= wrappers[#[trigger] s[k] as int].doc by {
            heap_root_is_least(s, le, k);
            assert(le(s[0], s[k]));
        }
        if top_list_of(s, wrappers).contains(entry) {
            let k = choose|k: int| 0 <= k < list.len() && list.reverse()[k] == entry;
            let m = list.len() - 1 - k;
            assert(list[m] == entry);
            assert(s[ps[m]] == entry);
        }
        if s.contains(entry) && forall|k: int|
            0 <= k < s.len() ==> wrappers[entry as int].doc <= wrappers[#[trigger] s[k] as int].doc {
            let j = choose|j: int| 0 <= j < s.len() && s[j] == entry;
            assert(wrappers[entry as int].doc <= wrappers[s[0] as int].doc);
            lemma_descends_from_root(j);
            lemma_on_doc_complete(s, wrappers, doc, 0, j);
            let k = choose|k: int| 0 <= k < list.len() && list[k] == entry;
            assert(list.reverse()[list.len() - 1 - k] == entry);
        }
        if s.no_duplicates() {
            assert forall|a: int, b: int| 0 <= a < b < list.len() implies list.reverse()[a]
                != list.reverse()[b] by {
                let x = list.len() - 1 - a;
                let y = list.len() - 1 - b;
                assert(ps[x] != ps[y]);
                assert(s[ps[x]] == list[x] && s[ps[y]] == list[y]);
            }
        }
    }
}

/// The first entry of a queue has the least document, and the second one the
/// least document of the others.
pub proof fn top_entries_are_least<S: Scorer>(s: Seq<usize>, wrappers: Seq<DisiWrapper<S>>, k: int)
    requires
        is_heap(s, by_doc_le(wrappers)),
        0 <= k < s.len(),
    ensures
        top_of(s) matches Some(e) && wrappers[e as int].doc <= wrappers[s[k] as int].doc,
        k > 0 ==> (top2_of(s, by_doc(wrappers)) matches Some(e) && wrappers[e as int].doc
            <= wrappers[s[k] as int].doc),
    decreases k,
{
    let le = by_doc_le(wrappers);
    heap_root_is_least(s, le, k);
    assert(le(s[0], s[k]));
    if k > 2 {
        top_entries_are_least(s, wrappers, parent(k));
        assert(le(s[parent(k)], s[k]));
    }
}

} // verus!
