//! The best hits of a search, the worst of them first.

use vstd::multiset::Multiset;
use vstd::prelude::*;

use crate::error::LuceneError;
use crate::search::index_searcher::ScoreDoc;
use crate::util::heap::{heap_root_is_least, is_heap, refines, sift_down, sift_up};
use crate::util::priority_queue::{
    drained, drained_is_sorted, operations_keep_items, popped, replaced, PriorityQueue,
};
use crate::util::slots::{order_of, SlotOrder};

verus! {

/// The score of a hit that any other hit is better than: the integer that stands for
/// negative infinity in the order of single-precision numbers.
pub const WORST_SCORE: i32 = -2139095041;

/// Puts the worst hits first: those with lesser scores, and of those with the same
/// score the greater documents.
#[derive(Debug, Clone, Copy)]
pub struct HitQueueComparator;

impl HitQueueComparator {
    /// Whether `a` is worse than `b`.
    pub open spec fn worse(a: ScoreDoc, b: ScoreDoc) -> bool {
        a.score < b.score || (a.score == b.score && a.doc > b.doc)
    }

    /// Returns whether `a` is worse than `b`.
    pub fn less_than(a: &ScoreDoc, b: &ScoreDoc) -> (r: bool)
        ensures
            r == Self::worse(*a, *b),
    {
        if a.score == b.score {
            a.doc > b.doc
        } else {
            a.score < b.score
        }
    }
}

impl SlotOrder<ScoreDoc> for HitQueueComparator {
    open spec fn before(a: ScoreDoc, b: ScoreDoc) -> bool {
        HitQueueComparator::worse(a, b)
    }

    open spec fn comparable(a: ScoreDoc) -> bool {
        true
    }

    open spec fn infallible(a: ScoreDoc) -> bool {
        true
    }

    fn comes_before(a: &ScoreDoc, b: &ScoreDoc) -> (r: Result<bool, LuceneError>) {
        Ok(HitQueueComparator::less_than(a, b))
    }
}

/// The order of hits, as a function.
pub open spec fn hit_order() -> spec_fn(ScoreDoc, ScoreDoc) -> bool {
    order_of::<ScoreDoc, HitQueueComparator>()
}

/// Whether the first hit is not better than the second one.
pub open spec fn not_better() -> spec_fn(ScoreDoc, ScoreDoc) -> bool {
    |a: ScoreDoc, b: ScoreDoc| !HitQueueComparator::worse(b, a)
}

proof fn lemma_order()
    ensures
        refines(hit_order(), not_better()),
{
}

/// Holds the best hits of a search, at most a given number of them.
pub struct HitQueue {
    pq: PriorityQueue<ScoreDoc, HitQueueComparator>,
}

/// A hit that any other hit is better than.
pub open spec fn sentinel() -> ScoreDoc {
    ScoreDoc { doc: i32::MAX, score: WORST_SCORE, shard_index: -1i32 }
}

impl HitQueue {
    /// The hits in the order of the heap.
    pub closed spec fn heap(&self) -> Seq<ScoreDoc> {
        self.pq.heap()
    }

    /// The greatest number of hits.
    pub closed spec fn capacity(&self) -> int {
        self.pq.capacity()
    }

    /// No hit is worse than the one above it in the heap.
    pub closed spec fn wf(&self) -> bool {
        self.pq.wf() && is_heap(self.pq.heap(), not_better())
    }

    /// The hits.
    pub open spec fn hits(&self) -> Multiset<ScoreDoc> {
        self.heap().to_multiset()
    }

    /// Creates a queue for `size` hits. With `pre_populate` it is filled with hits
    /// that any other hit is better than. Always succeeds.
    pub fn new(size: usize, pre_populate: bool) -> (r: Result<Self, LuceneError>)
        requires
            2 * size <= usize::MAX,
        ensures
            r matches Ok(q) && q.wf() && q.capacity() == size && q.heap() == if pre_populate {
                Seq::new(size as nat, |i: int| sentinel())
            } else {
                Seq::empty()
            },
    {
        let mut pq: PriorityQueue<ScoreDoc, HitQueueComparator> = PriorityQueue::new(size);
        if pre_populate {
            let mut i: usize = 0;
            while i < size
                invariant
                    i <= size,
                    pq.wf(),
                    pq.capacity() == size,
                    pq.heap() =~= Seq::new(i as nat, |j: int| sentinel()),
                    is_heap(pq.heap(), not_better()),
                decreases size - i,
            {
                let ghost before = pq.heap();
                pq.add(ScoreDoc { doc: i32::MAX, score: WORST_SCORE, shard_index: -1 });
                proof {
                    lemma_order();
                    operations_keep_items(before, hit_order(), not_better(), sentinel());
                    let s = before.push(sentinel());
                    assert(sift_up(s, hit_order(), i as int) == s);
                }
                i += 1;
            }
        }
        Ok(HitQueue { pq })
    }

    /// Adds a hit, and returns the worst one.
    pub fn add(&mut self, element: ScoreDoc) -> (r: ScoreDoc)
        requires
            old(self).wf(),
            old(self).heap().len() < old(self).capacity(),
        ensures
            final(self).wf(),
            final(self).capacity() == old(self).capacity(),
            final(self).heap() == sift_up(
                old(self).heap().push(element),
                hit_order(),
                old(self).heap().len() as int,
            ),
            r == final(self).heap()[0],
    {
        proof {
            lemma_order();
            operations_keep_items(self.heap(), hit_order(), not_better(), element);
            crate::util::heap::sift_up_keeps_elements(
                self.heap().push(element),
                hit_order(),
                self.heap().len() as int,
            );
        }
        self.pq.add(element);
        *self.pq.item_at(0)
    }

    /// Adds a hit when there is room, or when it is better than the worst one, which
    /// then leaves. Returns the hit that is not in the queue afterwards.
    pub fn insert_with_overflow(&mut self, element: ScoreDoc) -> (r: Option<ScoreDoc>)
        requires
            old(self).wf(),
        ensures
            final(self).wf(),
            final(self).capacity() == old(self).capacity(),
            ({
                let s = old(self).heap();
                if s.len() < old(self).capacity() {
                    r is None && final(self).heap() == sift_up(
                        s.push(element),
                        hit_order(),
                        s.len() as int,
                    )
                } else if s.len() > 0 && HitQueueComparator::worse(s[0], element) {
                    r == Some(s[0]) && final(self).heap() == replaced(s, hit_order(), element)
                } else {
                    r == Some(element) && final(self).heap() == s
                }
            }),
    {
        proof {
            lemma_order();
            operations_keep_items(self.heap(), hit_order(), not_better(), element);
        }
        self.pq.insert_with_overflow(element)
    }

    /// Returns the worst hit; `None` when there is none.
    pub fn top(&self) -> (r: Option<ScoreDoc>)
        requires
            self.wf(),
        ensures
            r == if self.heap().len() == 0 {
                None
            } else {
                Some(self.heap()[0])
            },
    {
        match self.pq.top() {
            Some(hit) => Some(*hit),
            None => None,
        }
    }

    /// Removes the worst hit, and returns it; `None` when there is none.
    pub fn pop(&mut self) -> (r: Option<ScoreDoc>)
        requires
            old(self).wf(),
        ensures
            final(self).wf(),
            final(self).capacity() == old(self).capacity(),
            r == if old(self).heap().len() == 0 {
                None
            } else {
                Some(old(self).heap()[0])
            },
            final(self).heap() == popped(old(self).heap(), hit_order()),
    {
        proof {
            lemma_order();
            operations_keep_items(self.heap(), hit_order(), not_better(), sentinel());
        }
        self.pq.pop()
    }

    /// Moves the worst hit to its place, and returns the worst one.
    pub fn update_top(&mut self) -> (r: Option<ScoreDoc>)
        requires
            old(self).wf(),
        ensures
            final(self).wf(),
            final(self).capacity() == old(self).capacity(),
            final(self).heap() == old(self).heap(),
            r == if old(self).heap().len() == 0 {
                None
            } else {
                Some(old(self).heap()[0])
            },
    {
        proof {
            let s = self.heap();
            lemma_order();
            if s.len() > 0 {
                assert(s.update(0, s[0]) =~= s);
                assert forall|c: int| 0 < c < s.len() && c <= 2 implies !HitQueueComparator::worse(
                    #[trigger] s[c],
                    s[0],
                ) by {
                    assert(crate::util::heap::parent(c) == 0);
                }
                assert(sift_down(s, hit_order(), 0) == s);
            } else {
                assert(s =~= Seq::empty());
            }
        }
        self.pq.update_top();
        self.top()
    }

    /// Puts a hit in the place of the worst one, and returns the worst one.
    pub fn update_top_with(&mut self, new_top: ScoreDoc) -> (r: Option<ScoreDoc>)
        requires
            old(self).wf(),
            old(self).heap().len() > 0,
        ensures
            final(self).wf(),
            final(self).capacity() == old(self).capacity(),
            final(self).heap() == replaced(old(self).heap(), hit_order(), new_top),
            r == Some(final(self).heap()[0]),
    {
        proof {
            lemma_order();
            operations_keep_items(self.heap(), hit_order(), not_better(), new_top);
            crate::util::heap::sift_down_keeps_elements(
                self.heap().update(0, new_top),
                hit_order(),
                0,
            );
        }
        let _replaced = self.pq.update_top_with(new_top);
        self.top()
    }

    /// Returns the number of hits.
    pub fn size(&self) -> (r: usize)
        ensures
            r == self.heap().len(),
    {
        self.pq.size()
    }

    /// Returns a queue with the same hits.
    pub fn duplicate(&self) -> (r: Self)
        requires
            self.wf(),
        ensures
            r.wf(),
            r.capacity() == self.capacity(),
            r.heap() == self.heap(),
    {
        HitQueue { pq: self.pq.duplicate() }
    }

    /// Returns the hit at a position of the heap.
    pub fn hit_at(&self, i: usize) -> (r: ScoreDoc)
        requires
            self.wf(),
            i < self.heap().len(),
        ensures
            r == self.heap()[i as int],
    {
        *self.pq.item_at(i)
    }

    /// Removes all hits.
    pub fn clear(&mut self)
        requires
            old(self).wf(),
        ensures
            final(self).wf(),
            final(self).capacity() == old(self).capacity(),
            final(self).heap() == Seq::<ScoreDoc>::empty(),
    {
        self.pq.clear();
    }

    /// There are not more hits than the queue is for.
    pub proof fn size_is_bounded(&self)
        requires
            self.wf(),
        ensures
            self.heap().len() <= self.capacity(),
    {
        self.pq.size_is_bounded();
    }

    /// No hit is worse than the one above it in the heap.
    pub proof fn wf_is_heap(&self)
        requires
            self.wf(),
        ensures
            is_heap(self.heap(), not_better()),
    {
    }

    /// Removing a hit leaves the others.
    pub proof fn popped_len(&self)
        requires
            self.wf(),
            self.heap().len() > 0,
        ensures
            popped(self.heap(), hit_order()).len() == self.heap().len() - 1,
    {
        lemma_order();
        operations_keep_items(self.heap(), hit_order(), not_better(), sentinel());
        crate::util::heap::sift_down_keeps_elements(
            self.heap().drop_last().update(0, self.heap().last()),
            hit_order(),
            0,
        );
    }

    /// The hit on top is not better than any other.
    pub proof fn top_is_worst(&self, i: int)
        requires
            self.wf(),
            0 <= i < self.heap().len(),
        ensures
            !HitQueueComparator::worse(self.heap()[i], self.heap()[0]),
    {
        heap_root_is_least(self.heap(), not_better(), i);
    }

    /// Removing all hits gives each of them once, the worst one first.
    pub proof fn hits_leave_in_order(&self, i: int, j: int)
        requires
            self.wf(),
            0 <= i <= j < self.heap().len(),
        ensures
            ({
                let out = drained(self.heap(), hit_order(), self.heap().len());
                &&& out.len() == self.heap().len()
                &&& out.to_multiset() == self.hits()
                &&& !HitQueueComparator::worse(out[j], out[i])
            }),
    {
        lemma_order();
        drained_is_sorted(self.heap(), hit_order(), not_better());
        let out = drained(self.heap(), hit_order(), self.heap().len());
        assert(not_better()(out[i], out[j]));
    }

    /// The hits that a queue was filled with when it was made leave it before all others.
    pub proof fn fillers_leave_first(&self, i: int, j: int)
        requires
            self.wf(),
            0 <= i < self.heap().len(),
            0 <= j < self.heap().len(),
            ({
                let out = drained(self.heap(), hit_order(), self.heap().len());
                &&& out[i] == sentinel()
                &&& out[j].score > WORST_SCORE || out[j].score == WORST_SCORE && out[j].doc
                    < i32::MAX
            }),
        ensures
            i < j,
    {
        if j <= i {
            self.hits_leave_in_order(j, i);
        }
    }

    /// A hit that leaves a full queue, or is not let in, is not better than any hit
    /// that stays, and nothing else changes.
    pub proof fn overflow_is_worst(&self, element: ScoreDoc, i: int)
        requires
            self.wf(),
            self.heap().len() > 0,
            0 <= i < self.heap().len(),
        ensures
            ({
                let s = self.heap();
                if HitQueueComparator::worse(s[0], element) {
                    &&& !HitQueueComparator::worse(s[i], s[0])
                    &&& !HitQueueComparator::worse(element, s[0])
                    &&& replaced(s, hit_order(), element).to_multiset() == self.hits().remove(
                        s[0],
                    ).insert(element)
                } else {
                    !HitQueueComparator::worse(s[i], element)
                }
            }),
    {
        lemma_order();
        heap_root_is_least(self.heap(), not_better(), i);
        operations_keep_items(self.heap(), hit_order(), not_better(), element);
    }
}

} // verus!
