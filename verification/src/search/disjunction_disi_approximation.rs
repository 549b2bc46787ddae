//! Iteration over the documents that at least one of several scorers
//! approximates.

use vstd::prelude::*;

use crate::error::LuceneError;
use crate::search::disi_priority_queue::{
    by_doc, by_doc_le, in_bounds, top_list_is_least_document, top_list_of, DisiPriorityQueue,
};
use crate::search::disi_wrapper::DisiWrapper;
use crate::search::doc_id_set_iterator::{
    first_from_in_range, is_first_from, loaded_bits, DocIdSetIterator, DocIds, NO_MORE_DOCS,
};
use crate::search::scorer::{looked_ahead, BlockScorer, Scorer};
use crate::util::fixed_bit_set::FixedBitSet;
use crate::util::heap::{
    heap_root_is_least, heapified, heapified_of_equals, is_heap, is_heap_from, parent, refines, sift_down, sift_down_keeps_elements, sift_down_restores_heap,
};
use crate::util::positions::{
    lists_range, lists_range_bounds, lists_range_permuted, position_range, positions,
};
use crate::util::sort::{descending, is_stable_order, stable_order};

verus! {

/// The documents of all wrappers together.
pub open spec fn union_docs<S: Scorer>(ws: Seq<DisiWrapper<S>>) -> Set<int> {
    Set::new(|d: int| exists|i: int| 0 <= i < ws.len() && #[trigger] ws[i].scorer.view().ids.docs.contains(d))
}

/// The wrappers match the same documents.
pub open spec fn same_clauses<S: Scorer>(a: Seq<DisiWrapper<S>>, b: Seq<DisiWrapper<S>>) -> bool {
    &&& a.len() == b.len()
    &&& forall|i: int| 0 <= i < a.len() ==> (#[trigger] b[i]).same_clause(&a[i])
}

/// The wrappers match the same documents.
spec fn same_docs<S: Scorer>(a: Seq<DisiWrapper<S>>, b: Seq<DisiWrapper<S>>) -> bool {
    &&& same_clauses(a, b)
    &&& forall|i: int| 0 <= i < a.len() ==> #[trigger] a[i].scorer.view().ids.docs
        == b[i].scorer.view().ids.docs
    &&& forall|i: int| 0 <= i < a.len() ==> #[trigger] a[i].scorer.infallible()
        == b[i].scorer.infallible()
}

proof fn lemma_same_union<S: Scorer>(a: Seq<DisiWrapper<S>>, b: Seq<DisiWrapper<S>>)
    requires
        same_docs(a, b),
    ensures
        union_docs(a) == union_docs(b),
{
    assert forall|d: int| union_docs(a).contains(d) == union_docs(b).contains(d) by {
        if union_docs(a).contains(d) {
            let i = choose|i: int| 0 <= i < a.len() && #[trigger] a[i].scorer.view().ids.docs.contains(d);
            assert(b[i].scorer.view().ids.docs.contains(d));
        }
        if union_docs(b).contains(d) {
            let i = choose|i: int| 0 <= i < b.len() && #[trigger] b[i].scorer.view().ids.docs.contains(d);
            assert(a[i].scorer.view().ids.docs.contains(d));
        }
    }
    assert(union_docs(a) =~= union_docs(b));
}

/// What is read of each wrapper is up to date.
spec fn synced<S: Scorer>(ws: Seq<DisiWrapper<S>>) -> bool {
    forall|i: int| 0 <= i < ws.len() ==> {
        &&& (#[trigger] ws[i]).inv()
        &&& ws[i].scorer.view().ids.valid()
        &&& ws[i].doc == ws[i].scorer.view().ids.doc
    }
}

/// Every wrapper is on its first document at or after `target`.
spec fn all_first_from<S: Scorer>(ws: Seq<DisiWrapper<S>>, target: int) -> bool {
    forall|i: int| 0 <= i < ws.len() ==> is_first_from(
        (#[trigger] ws[i]).scorer.view().ids.docs,
        target,
        ws[i].doc as int,
    )
}

/// `m` is the least document among the first `k` wrappers.
spec fn is_min_doc<S: Scorer>(ws: Seq<DisiWrapper<S>>, k: int, m: int) -> bool {
    &&& forall|i: int| 0 <= i < k ==> m <= (#[trigger] ws[i]).doc
    &&& m == NO_MORE_DOCS || exists|i: int| 0 <= i < k && m == (#[trigger] ws[i]).doc
}

proof fn lemma_min_doc_step<S: Scorer>(
    before: Seq<DisiWrapper<S>>,
    after: Seq<DisiWrapper<S>>,
    k: int,
    m: int,
)
    requires
        0 <= k < before.len(),
        before.len() == after.len(),
        is_min_doc(before, k, m),
        forall|i: int| 0 <= i < k ==> (#[trigger] after[i]).doc == before[i].doc,
    ensures
        is_min_doc(
            after,
            k + 1,
            if after[k].doc < m {
                after[k].doc as int
            } else {
                m
            },
        ),
{
    if after[k].doc >= m && m != NO_MORE_DOCS {
        let i = choose|i: int| 0 <= i < k && m == (#[trigger] before[i]).doc;
        assert(after[i].doc == m);
    }
}

/// The total number of documents that the wrappers may still move over.
spec fn distance<S: Scorer>(ws: Seq<DisiWrapper<S>>) -> int
    decreases ws.len(),
{
    if ws.len() == 0 {
        0
    } else {
        distance(ws.drop_last()) + (NO_MORE_DOCS - ws.last().doc)
    }
}

proof fn lemma_distance_nonneg<S: Scorer>(ws: Seq<DisiWrapper<S>>)
    ensures
        distance(ws) >= 0,
    decreases ws.len(),
{
    if ws.len() > 0 {
        lemma_distance_nonneg(ws.drop_last());
    }
}

proof fn lemma_distance_update<S: Scorer>(ws: Seq<DisiWrapper<S>>, i: int, w: DisiWrapper<S>)
    requires
        0 <= i < ws.len(),
        w.doc > ws[i].doc,
    ensures
        0 <= distance(ws.update(i, w)) < distance(ws),
    decreases ws.len(),
{
    let us = ws.update(i, w);
    if i == ws.len() - 1 {
        assert(us.drop_last() =~= ws.drop_last());
    } else {
        assert(us.drop_last() =~= ws.drop_last().update(i, w));
        lemma_distance_update(ws.drop_last(), i, w);
    }
    lemma_distance_nonneg(us);
}

/// Moving the first entry of a queue forward leaves the rest in order.
proof fn lemma_moved_top<S: Scorer>(
    s: Seq<usize>,
    before: Seq<DisiWrapper<S>>,
    after: Seq<DisiWrapper<S>>,
)
    requires
        s.len() > 0,
        s.no_duplicates(),
        is_heap(s, by_doc_le(before)),
        in_bounds(s, before.len()),
        before.len() == after.len(),
        forall|i: int| 0 <= i < before.len() && i != s[0] ==> (#[trigger] after[i]).doc
            == before[i].doc,
    ensures
        is_heap_from(s, by_doc_le(after), 1),
        is_heap(sift_down(s, by_doc(after), 0), by_doc_le(after)),
        sift_down(s, by_doc(after), 0).to_multiset() == s.to_multiset(),
{
    assert forall|c: int| #![trigger s[c]] 0 < c < s.len() && parent(c) >= 1 implies by_doc_le(
        after,
    )(s[parent(c)], s[c]) by {
        assert(by_doc_le(before)(s[parent(c)], s[c]));
        assert(s[parent(c)] != s[0] && s[c] != s[0]);
        assert(after[s[c] as int].doc == before[s[c] as int].doc);
        assert(after[s[parent(c)] as int].doc == before[s[parent(c)] as int].doc);
    }
    assert(refines(by_doc(after), by_doc_le(after)));
    sift_down_restores_heap(s, by_doc(after), by_doc_le(after));
    sift_down_keeps_elements(s, by_doc(after), 0);
}

/// With every wrapper on its first document at or after `target`, the least of
/// these documents is the first one of all.
proof fn lemma_least_is_first<S: Scorer>(ws: Seq<DisiWrapper<S>>, target: int, m: int)
    requires
        synced(ws),
        all_first_from(ws, target),
        is_min_doc(ws, ws.len() as int, m),
    ensures
        is_first_from(union_docs(ws), target, m),
        all_first_from(ws, m),
{
    let u = union_docs(ws);
    assert forall|d: int| #[trigger] u.contains(d) && d >= target implies d >= m by {
        let i = choose|i: int| 0 <= i < ws.len() && #[trigger] ws[i].scorer.view().ids.docs.contains(d);
        assert(is_first_from(ws[i].scorer.view().ids.docs, target, ws[i].doc as int));
    }
    if m != NO_MORE_DOCS {
        let i = choose|i: int| 0 <= i < ws.len() && m == (#[trigger] ws[i]).doc;
        first_from_in_range(ws[i].scorer.view().ids, target, m);
        assert(ws[i].scorer.view().ids.docs.contains(m));
        assert(u.contains(m));
    } else {
        assert forall|d: int| #[trigger] u.contains(d) implies d < target by {
            let i = choose|i: int|
                0 <= i < ws.len() && #[trigger] ws[i].scorer.view().ids.docs.contains(d);
            assert(ws[i].scorer.view().ids.valid());
            assert(d < NO_MORE_DOCS);
        }
    }
    assert forall|i: int| 0 <= i < ws.len() implies is_first_from(
        (#[trigger] ws[i]).scorer.view().ids.docs,
        m,
        ws[i].doc as int,
    ) by {
        let docs = ws[i].scorer.view().ids.docs;
        assert(is_first_from(docs, target, ws[i].doc as int));
        assert(m <= ws[i].doc);
        first_from_in_range(ws[i].scorer.view().ids, target, ws[i].doc as int);
        if ws[i].doc == NO_MORE_DOCS {
            assert(ws[i].scorer.view().ids.valid());
            assert forall|d: int| #[trigger] docs.contains(d) implies d < m by {
                assert(u.contains(d));
            }
        }
    }
}

proof fn lemma_union_valid<S: Scorer>(ws: Seq<DisiWrapper<S>>)
    requires
        synced(ws),
    ensures
        forall|d: int| #[trigger] union_docs(ws).contains(d) ==> 0 <= d < NO_MORE_DOCS,
{
    assert forall|d: int| #[trigger] union_docs(ws).contains(d) implies 0 <= d < NO_MORE_DOCS by {
        let i = choose|i: int| 0 <= i < ws.len() && #[trigger] ws[i].scorer.view().ids.docs.contains(d);
        assert(ws[i].scorer.view().ids.valid());
    }
}

/// The documents in `[from, up_to)` have a bit.
spec fn fits_bits<S: Scorer>(
    ws: Seq<DisiWrapper<S>>,
    from: int,
    up_to: int,
    offset: int,
    len: int,
) -> bool {
    forall|d: int| #[trigger]
        union_docs(ws).contains(d) && from <= d < up_to ==> 0 <= d - offset < len && d - offset
            <= i32::MAX
}

/// Each wrapper is where it was, or has been read up to `up_to`.
spec fn load_progress<S: Scorer>(
    ws0: Seq<DisiWrapper<S>>,
    ws: Seq<DisiWrapper<S>>,
    from: int,
    up_to: int,
    target: int,
) -> bool {
    forall|i: int| 0 <= i < ws0.len() ==> {
        &&& is_first_from(
            ws0[i].scorer.view().ids.docs,
            from,
            (#[trigger] ws[i]).doc as int,
        ) || (ws[i].doc == -1 && from == 0) || is_first_from(
            ws0[i].scorer.view().ids.docs,
            target,
            ws[i].doc as int,
        )
    }
}

/// The documents of the wrappers that have been read are in the bits, and
/// nothing else has been added.
spec fn bits_progress<S: Scorer>(
    ws0: Seq<DisiWrapper<S>>,
    ws: Seq<DisiWrapper<S>>,
    bits0: Seq<bool>,
    bits: Seq<bool>,
    from: int,
    up_to: int,
    offset: int,
) -> bool {
    &&& forall|x: int| 0 <= x < bits0.len() ==> #[trigger] bits[x] ==> bits0[x] || (union_docs(
        ws0,
    ).contains(x + offset) && from <= x + offset < up_to)
    &&& forall|x: int| 0 <= x < bits0.len() ==> bits0[x] ==> #[trigger] bits[x]
    &&& forall|i: int, d: int|
        0 <= i < ws0.len() && (#[trigger] ws[i]).doc >= up_to
            && #[trigger] ws0[i].scorer.view().ids.docs.contains(d) && from <= d < up_to
            ==> bits[d - offset]
}

proof fn lemma_load_starts<S: Scorer>(
    ws0: Seq<DisiWrapper<S>>,
    bits0: Seq<bool>,
    doc: int,
    from: int,
    up_to: int,
    offset: int,
)
    requires
        synced(ws0),
        up_to >= 0,
        doc == -1 ==> from == 0 && forall|i: int| 0 <= i < ws0.len() ==> (#[trigger] ws0[i]).doc == -1,
        doc != -1 ==> from == doc && all_first_from(ws0, doc),
    ensures
        load_progress(
            ws0,
            ws0,
            from,
            up_to,
            if up_to >= from {
                up_to
            } else {
                from
            },
        ),
        bits_progress(ws0, ws0, bits0, bits0, from, up_to, offset),
{
    assert forall|i: int, d: int|
        0 <= i < ws0.len() && (#[trigger] ws0[i]).doc >= up_to
            && #[trigger] ws0[i].scorer.view().ids.docs.contains(d) && from <= d
            < up_to implies bits0[d - offset] by {
        assert(is_first_from(ws0[i].scorer.view().ids.docs, from, ws0[i].doc as int));
    }
}

proof fn lemma_sub_fits<S: Scorer>(
    ws0: Seq<DisiWrapper<S>>,
    ws: Seq<DisiWrapper<S>>,
    p: int,
    from: int,
    up_to: int,
    offset: int,
    len: int,
)
    requires
        same_docs(ws0, ws),
        0 <= p < ws.len(),
        from >= 0,
        up_to >= 0,
        synced(ws),
        fits_bits(ws0, from, up_to, offset, len),
        load_progress(
            ws0,
            ws,
            from,
            up_to,
            if up_to >= from {
                up_to
            } else {
                from
            },
        ),
    ensures
        forall|d: int| #[trigger]
            ws[p].scorer.view().ids.docs.contains(d)
                && ws[p].scorer.view().ids.read_from() <= d < up_to ==> 0 <= d - offset < len
                && d - offset <= i32::MAX,
{
    assert forall|d: int| #[trigger]
        ws[p].scorer.view().ids.docs.contains(d)
            && ws[p].scorer.view().ids.read_from() <= d < up_to implies 0 <= d - offset < len
        && d - offset <= i32::MAX by {
        assert(ws0[p].scorer.view().ids.docs == ws[p].scorer.view().ids.docs);
        assert(ws0[p].scorer.view().ids.docs.contains(d));
        assert(union_docs(ws0).contains(d));
        assert(ws[p].doc == ws[p].scorer.view().ids.doc);
    }
}

proof fn lemma_load_step<S: Scorer>(
    ws0: Seq<DisiWrapper<S>>,
    before: Seq<DisiWrapper<S>>,
    w: DisiWrapper<S>,
    p: int,
    bits0: Seq<bool>,
    bits1: Seq<bool>,
    bits2: Seq<bool>,
    from: int,
    up_to: int,
    offset: int,
    target: int,
)
    requires
        0 <= p < ws0.len(),
        same_docs(ws0, before),
        synced(before),
        from >= 0,
        0 <= up_to <= NO_MORE_DOCS,
        target == if up_to >= from {
            up_to
        } else {
            from
        },
        bits0.len() == bits1.len(),
        bits1.len() == bits2.len(),
        fits_bits(ws0, from, up_to, offset, bits0.len() as int),
        load_progress(ws0, before, from, up_to, target),
        bits_progress(ws0, before, bits0, bits1, from, up_to, offset),
        w.scorer.view().ids.docs == ws0[p].scorer.view().ids.docs,
        w.same_clause(&before[p]),
        w.scorer.view().ids.valid(),
        w.doc == w.scorer.view().ids.doc,
        is_first_from(
            ws0[p].scorer.view().ids.docs,
            if up_to >= before[p].scorer.view().ids.read_from() {
                up_to
            } else {
                before[p].scorer.view().ids.read_from()
            },
            w.doc as int,
        ),
        bits2 == loaded_bits(
            bits1,
            ws0[p].scorer.view().ids.docs,
            before[p].scorer.view().ids.read_from(),
            up_to,
            offset,
        ),
    ensures
        same_docs(ws0, before.update(p, w)),
        load_progress(ws0, before.update(p, w), from, up_to, target),
        bits_progress(ws0, before.update(p, w), bits0, bits2, from, up_to, offset),
        w.doc >= up_to,
        before[p].doc < up_to ==> w.doc > before[p].doc,
{
    let after = before.update(p, w);
    let docs = ws0[p].scorer.view().ids.docs;
    let rf = before[p].scorer.view().ids.read_from();
    assert(before[p].doc == before[p].scorer.view().ids.doc);
    first_from_in_range(
        w.scorer.view().ids,
        if up_to >= rf {
            up_to
        } else {
            rf
        },
        w.doc as int,
    );
    assert(before[p].scorer.view().ids.docs == docs);
    assert(before[p].doc >= up_to ==> w.doc == before[p].doc);
    assert forall|i: int, d: int|
        0 <= i < ws0.len() && (#[trigger] after[i]).doc >= up_to
            && #[trigger] ws0[i].scorer.view().ids.docs.contains(d) && from <= d
            < up_to implies bits2[d - offset] by {
        assert(union_docs(ws0).contains(d));
        if i == p {
            if d >= rf {
            } else {
                if before[p].doc >= up_to {
                    assert(bits1[d - offset]);
                }
            }
        } else {
            assert(before[i].doc >= up_to);
            assert(bits1[d - offset]);
        }
    }
    assert forall|x: int| 0 <= x < bits0.len() && #[trigger] bits2[x] implies bits0[x] || (
    union_docs(ws0).contains(x + offset) && from <= x + offset < up_to) by {
        if !bits1[x] {
            assert(ws0[p].scorer.view().ids.docs.contains(x + offset));
        }
    }
}

proof fn lemma_load_ends<S: Scorer>(
    ws0: Seq<DisiWrapper<S>>,
    ws: Seq<DisiWrapper<S>>,
    bits0: Seq<bool>,
    bits: Seq<bool>,
    from: int,
    up_to: int,
    offset: int,
    target: int,
)
    requires
        same_docs(ws0, ws),
        synced(ws),
        from >= 0,
        up_to >= 0,
        target == if up_to >= from {
            up_to
        } else {
            from
        },
        bits0.len() == bits.len(),
        load_progress(ws0, ws, from, up_to, target),
        bits_progress(ws0, ws, bits0, bits, from, up_to, offset),
        forall|i: int| 0 <= i < ws0.len() ==> (#[trigger] ws[i]).doc >= up_to,
    ensures
        all_first_from(ws, target),
        bits == loaded_bits(bits0, union_docs(ws0), from, up_to, offset),
{
    assert forall|i: int| 0 <= i < ws.len() implies is_first_from(
        (#[trigger] ws[i]).scorer.view().ids.docs,
        target,
        ws[i].doc as int,
    ) by {
        assert(ws0[i].scorer.view().ids.docs == ws[i].scorer.view().ids.docs);
    }
    assert forall|x: int| 0 <= x < bits0.len() implies bits[x] == #[trigger] loaded_bits(
        bits0,
        union_docs(ws0),
        from,
        up_to,
        offset,
    )[x] by {
        let d = x + offset;
        if union_docs(ws0).contains(d) && from <= d < up_to {
            let i = choose|i: int|
                0 <= i < ws0.len() && #[trigger] ws0[i].scorer.view().ids.docs.contains(d);
            assert(ws[i].doc >= up_to);
            assert(bits[d - offset]);
        }
    }
    assert(bits =~= loaded_bits(bits0, union_docs(ws0), from, up_to, offset));
}

/// Iterates over the documents that at least one wrapped scorer approximates.
///
/// The wrappers are sorted by decreasing cost. The cheapest ones are kept in a
/// queue; the others are checked one by one.
pub struct DisjunctionDISIApproximation<S: Scorer> {
    wrappers: Vec<DisiWrapper<S>>,
    original_order: Vec<usize>,
    lead_iterators: DisiPriorityQueue,
    other_iterators: Vec<usize>,
    cost: i64,
    lead_top: usize,
    min_other_doc: i32,
    doc: i32,
}

impl<S: Scorer> DisjunctionDISIApproximation<S> {
    /// The wrappers, by decreasing cost.
    pub closed spec fn clauses(&self) -> Seq<DisiWrapper<S>> {
        self.wrappers@
    }

    /// The position in [`Self::clauses`] of each clause as it was supplied.
    pub closed spec fn supplied_order(&self) -> Seq<usize> {
        self.original_order@
    }

    /// The number of wrappers that are not in the queue: the first ones.
    pub closed spec fn num_others(&self) -> int {
        self.other_iterators.len() as int
    }

    /// The queue of the other wrappers.
    pub closed spec fn queue(&self) -> Seq<usize> {
        self.lead_iterators@
    }

    /// The structure is intact, whatever the documents.
    spec fn intact(&self) -> bool {
        let n = self.wrappers.len();
        let k = self.other_iterators.len();
        &&& 0 < n < i32::MAX
        &&& k < n
        &&& forall|j: int| 0 <= j < k ==> #[trigger] self.other_iterators[j] == j
        &&& self.lead_iterators.wf()
        &&& lists_range(self.lead_iterators@, k as int, n as int)
        &&& self.lead_iterators@.len() > 0
        &&& is_heap(self.lead_iterators@, by_doc_le(self.wrappers@))
        &&& self.lead_top == self.lead_iterators@[0]
        &&& synced(self.wrappers@)
        &&& self.original_order.len() == n
        &&& forall|j: int| 0 <= j < n ==> #[trigger] self.original_order[j] < n
        &&& self.original_order@.no_duplicates()
    }

    /// Everything but the wrappers, the queue and its first entry is unchanged.
    spec fn same_frame(&self, other: &Self) -> bool {
        &&& self.other_iterators == other.other_iterators
        &&& self.original_order == other.original_order
        &&& self.cost == other.cost
        &&& self.min_other_doc == other.min_other_doc
        &&& self.doc == other.doc
    }

    proof fn lemma_lead_is_least(&self, i: int)
        requires
            self.intact(),
            self.other_iterators.len() <= i < self.wrappers.len(),
        ensures
            self.wrappers[self.lead_top as int].doc <= self.wrappers[i].doc,
            self.lead_top < self.wrappers.len(),
            self.lead_top >= self.other_iterators.len(),
    {
        let q = self.lead_iterators@;
        let le = by_doc_le(self.wrappers@);
        assert(q.contains(i as usize));
        let j = choose|j: int| 0 <= j < q.len() && q[j] == i as usize;
        heap_root_is_least(q, le, j);
        assert(le(q[0], q[j]));
        assert(q.contains(q[0]));
    }

    proof fn lemma_lead_in_bounds(&self)
        requires
            self.intact(),
        ensures
            self.lead_top < self.wrappers.len(),
            self.lead_top >= self.other_iterators.len(),
            in_bounds(self.lead_iterators@, self.wrappers@.len()),
    {
        lists_range_bounds(
            self.lead_iterators@,
            self.other_iterators.len() as int,
            self.wrappers.len() as int,
        );
    }

    /// Records the position of the first entry of the queue, which has moved
    /// forward, and restores the order of the queue.
    fn requeue_lead(&mut self, Ghost(before): Ghost<Self>)
        requires
            before.intact(),
            before.lead_top < before.wrappers.len(),
            old(self).same_frame(&before),
            old(self).lead_iterators == before.lead_iterators,
            old(self).lead_top == before.lead_top,
            old(self).wrappers.len() == before.wrappers.len(),
            forall|i: int|
                0 <= i < before.wrappers.len() && i != before.lead_top ==> #[trigger] old(
                    self,
                ).wrappers[i] == before.wrappers[i],
            ({
                let w = old(self).wrappers[before.lead_top as int];
                &&& w.inv()
                &&& w.scorer.view().ids.valid()
                &&& w.scorer.view().ids.docs
                    == before.wrappers[before.lead_top as int].scorer.view().ids.docs
            }),
        ensures
            final(self).intact(),
            final(self).same_frame(&before),
            final(self).wrappers.len() == before.wrappers.len(),
            forall|i: int|
                0 <= i < before.wrappers.len() && i != before.lead_top ==> #[trigger] final(self).wrappers[i] == before.wrappers[i],
            ({
                let w = final(self).wrappers[before.lead_top as int];
                &&& w.scorer == old(self).wrappers[before.lead_top as int].scorer
                &&& w.same_clause(&old(self).wrappers[before.lead_top as int])
                &&& w.doc == w.scorer.view().ids.doc
            }),
    {
        let p: usize = self.lead_top;
        let doc: i32 = self.wrappers[p].approximation_doc_id();
        self.wrappers[p].doc = doc;
        proof {
            let q = before.lead_iterators@;
            lists_range_bounds(
                q,
                before.other_iterators.len() as int,
                before.wrappers.len() as int,
            );
            lemma_moved_top(q, before.wrappers@, self.wrappers@);
            lists_range_permuted(
                q,
                sift_down(q, by_doc(self.wrappers@), 0),
                before.other_iterators.len() as int,
                before.wrappers.len() as int,
            );
        }
        match self.lead_iterators.update_top(self.wrappers.as_slice()) {
            Some(top) => {
                self.lead_top = top;
            },
            None => {
                assert(false);
            },
        }
    }
}

impl<S: Scorer> DocIdSetIterator for DisjunctionDISIApproximation<S> {
    closed spec fn view(&self) -> DocIds {
        DocIds { docs: union_docs(self.wrappers@), doc: self.doc as int }
    }

    closed spec fn inv(&self) -> bool {
        let ws = self.wrappers@;
        &&& self.intact()
        &&& is_min_doc(ws, self.other_iterators.len() as int, self.min_other_doc as int)
        &&& is_min_doc(ws, ws.len() as int, self.doc as int)
        &&& self.doc == -1 ==> forall|i: int| 0 <= i < ws.len() ==> (#[trigger] ws[i]).doc == -1
        &&& self.doc != -1 ==> self.doc >= 0 && all_first_from(ws, self.doc as int)
    }

    closed spec fn infallible(&self) -> bool {
        forall|i: int| 0 <= i < self.wrappers.len() ==> #[trigger] self.wrappers[i].scorer.infallible()
    }

    closed spec fn reported_cost(&self) -> i64 {
        self.cost
    }

    fn doc_id(&self) -> (r: i32) {
        proof {
            self.lemma_valid();
        }
        self.doc
    }

    fn cost(&self) -> (r: i64) {
        self.cost
    }

    fn next_doc(&mut self) -> (r: Result<i32, LuceneError>)
        ensures
            r is Ok ==> {
                &&& same_clauses(old(self).clauses(), final(self).clauses())
                &&& final(self).supplied_order() == old(self).supplied_order()
                &&& final(self).num_others() == old(self).num_others()
                &&& final(self).reported_cost() == old(self).reported_cost()
            },
    {
        proof {
            self.lemma_lead_in_bounds();
        }
        let ghost ws0 = old(self).wrappers@;
        if self.wrappers[self.lead_top].doc < self.min_other_doc {
            let cur_doc: i32 = self.wrappers[self.lead_top].doc;
            proof {
                old(self).lemma_doc_is_lead_or_other();
            }
            let mut moving: bool = true;
            while moving
                invariant
                    self.intact(),
                    self.same_frame(old(self)),
                    old(self).inv(),
                    same_docs(ws0, self.wrappers@),
                    ws0 == old(self).wrappers@,
                    cur_doc == old(self).doc,
                    cur_doc < NO_MORE_DOCS,
                    self.lead_top < self.wrappers.len(),
                    moving ==> self.wrappers[self.lead_top as int].doc == cur_doc,
                    !moving ==> self.wrappers[self.lead_top as int].doc != cur_doc,
                    forall|i: int| 0 <= i < ws0.len() ==> {
                        ||| (#[trigger] self.wrappers[i]).doc == cur_doc && i
                            >= self.other_iterators.len()
                        ||| self.wrappers[i].doc > cur_doc && is_first_from(
                            ws0[i].scorer.view().ids.docs,
                            cur_doc + 1,
                            self.wrappers[i].doc as int,
                        )
                    },
                    forall|i: int|
                        0 <= i < self.other_iterators.len() ==> #[trigger] self.wrappers[i]
                            == ws0[i],
                decreases distance(self.wrappers@), if moving { 1int } else { 0int },
            {
                let p: usize = self.lead_top;
                let ghost before = *self;
                assert(self.wrappers[p as int].inv());
                let next: i32 = match self.wrappers[p].scorer.next_approximation() {
                    Ok(d) => d,
                    Err(e) => {
                        proof {
                            old(self).lemma_failed(&before, self, p as int);
                        }
                        return Err(e);
                    },
                };
                proof {
                    first_from_in_range(
                        self.wrappers[p as int].scorer.view().ids,
                        cur_doc + 1,
                        next as int,
                    );
                }
                self.requeue_lead(Ghost(before));
                proof {
                    lemma_distance_update(before.wrappers@, p as int, self.wrappers[p as int]);
                    assert(self.wrappers@ =~= before.wrappers@.update(
                        p as int,
                        self.wrappers[p as int],
                    ));
                    self.lemma_lead_in_bounds();
                }
                moving = self.wrappers[self.lead_top].doc == cur_doc;
            }
            proof {
                assert forall|i: int| 0 <= i < ws0.len() implies is_first_from(
                    (#[trigger] self.wrappers[i]).scorer.view().ids.docs,
                    cur_doc + 1,
                    self.wrappers[i].doc as int,
                ) by {
                    if i >= self.other_iterators.len() {
                        self.lemma_lead_is_least(i);
                    }
                    assert(ws0[i].scorer.view().ids.docs == self.wrappers[i].scorer.view().ids.docs);
                }
            }
            self.settle(Ghost(ws0), Ghost(cur_doc + 1));
            proof {
                old(self).lemma_same_infallible(self);
            }
            Ok(self.doc)
        } else {
            proof {
                old(self).lemma_doc_is_lead_or_other();
            }
            let target: i32 = self.min_other_doc + 1;
            self.advance(target)
        }
    }

    fn advance(&mut self, target: i32) -> (r: Result<i32, LuceneError>)
        ensures
            r is Ok ==> {
                &&& same_clauses(old(self).clauses(), final(self).clauses())
                &&& final(self).supplied_order() == old(self).supplied_order()
                &&& final(self).num_others() == old(self).num_others()
                &&& final(self).reported_cost() == old(self).reported_cost()
            },
    {
        proof {
            self.lemma_lead_in_bounds();
        }
        let ghost ws0 = old(self).wrappers@;
        while self.wrappers[self.lead_top].doc < target
            invariant
                self.intact(),
                self.same_frame(old(self)),
                old(self).inv(),
                old(self).doc < target,
                same_docs(ws0, self.wrappers@),
                ws0 == old(self).wrappers@,
                self.lead_top < self.wrappers.len(),
                forall|i: int| 0 <= i < ws0.len() ==> (#[trigger] self.wrappers[i]).doc >= target
                    ==> is_first_from(
                    ws0[i].scorer.view().ids.docs,
                    target as int,
                    self.wrappers[i].doc as int,
                ),
            decreases distance(self.wrappers@),
        {
            let p: usize = self.lead_top;
            let ghost before = *self;
            assert(self.wrappers[p as int].inv());
            let next: i32 = match self.wrappers[p].scorer.advance_approximation(target) {
                Ok(d) => d,
                Err(e) => {
                    proof {
                        old(self).lemma_failed(&before, self, p as int);
                    }
                    return Err(e);
                },
            };
            proof {
                first_from_in_range(
                    self.wrappers[p as int].scorer.view().ids,
                    target as int,
                    next as int,
                );
            }
            self.requeue_lead(Ghost(before));
            proof {
                lemma_distance_update(before.wrappers@, p as int, self.wrappers[p as int]);
                assert(self.wrappers@ =~= before.wrappers@.update(
                    p as int,
                    self.wrappers[p as int],
                ));
                self.lemma_lead_in_bounds();
            }
        }
        self.min_other_doc = NO_MORE_DOCS;
        let mut k: usize = 0;
        while k < self.other_iterators.len()
            invariant
                self.intact(),
                self.other_iterators == old(self).other_iterators,
                self.original_order == old(self).original_order,
                self.cost == old(self).cost,
                same_docs(ws0, self.wrappers@),
                ws0 == old(self).wrappers@,
                k <= self.other_iterators.len(),
                is_min_doc(self.wrappers@, k as int, self.min_other_doc as int),
                self.wrappers[self.lead_top as int].doc >= target,
                forall|i: int| 0 <= i < k ==> (#[trigger] self.wrappers[i]).doc >= target,
                forall|i: int| 0 <= i < ws0.len() ==> (#[trigger] self.wrappers[i]).doc >= target
                    ==> is_first_from(
                    ws0[i].scorer.view().ids.docs,
                    target as int,
                    self.wrappers[i].doc as int,
                ),
            decreases self.other_iterators.len() - k,
        {
            let position: usize = self.other_iterators[k];
            let ghost before = *self;
            if self.wrappers[position].doc < target {
                assert(self.wrappers[position as int].inv());
                let next: i32 = match self.wrappers[position].scorer.advance_approximation(target) {
                    Ok(d) => d,
                    Err(e) => {
                        proof {
                            old(self).lemma_failed(&before, self, position as int);
                        }
                        return Err(e);
                    },
                };
                proof {
                    first_from_in_range(
                        self.wrappers[position as int].scorer.view().ids,
                        target as int,
                        next as int,
                    );
                }
                self.wrappers[position].doc = next;
                proof {
                    self.lemma_other_moved(&before, position as int);
                }
            }
            proof {
                lemma_min_doc_step(
                    before.wrappers@,
                    self.wrappers@,
                    k as int,
                    self.min_other_doc as int,
                );
            }
            if self.wrappers[position].doc < self.min_other_doc {
                self.min_other_doc = self.wrappers[position].doc;
            }
            k += 1;
        }
        proof {
            assert forall|i: int| 0 <= i < ws0.len() implies is_first_from(
                (#[trigger] self.wrappers[i]).scorer.view().ids.docs,
                target as int,
                self.wrappers[i].doc as int,
            ) by {
                if i >= self.other_iterators.len() {
                    self.lemma_lead_is_least(i);
                }
                assert(ws0[i].scorer.view().ids.docs == self.wrappers[i].scorer.view().ids.docs);
            }
        }
        self.settle(Ghost(ws0), Ghost(target as int));
        proof {
            old(self).lemma_same_infallible(self);
        }
        Ok(self.doc)
    }

    fn into_bit_set(&mut self, up_to: i32, bit_set: &mut FixedBitSet, offset: i32) -> (r: Result<
        (),
        LuceneError,
    >)
        ensures
            r is Ok ==> {
                &&& same_clauses(old(self).clauses(), final(self).clauses())
                &&& final(self).supplied_order() == old(self).supplied_order()
                &&& final(self).num_others() == old(self).num_others()
                &&& final(self).reported_cost() == old(self).reported_cost()
            },
    {
        proof {
            self.lemma_lead_in_bounds();
            self.lemma_valid();
        }
        if up_to < 0 {
            if self.doc == -1 {
                self.next_doc()?;
            }
            proof {
                let ids = old(self).view();
                assert(bit_set@ =~= loaded_bits(
                    old(bit_set)@,
                    ids.docs,
                    ids.read_from(),
                    up_to as int,
                    offset as int,
                ));
                self.lemma_valid();
            }
            return Ok(());
        }
        let ghost ws0 = old(self).wrappers@;
        let ghost from = old(self).view().read_from();
        let ghost bits0 = old(bit_set)@;
        let ghost target = if up_to >= from {
            up_to as int
        } else {
            from
        };
        proof {
            lemma_load_starts(ws0, bits0, self.doc as int, from, up_to as int, offset as int);
            assert forall|d: int| #[trigger]
                union_docs(ws0).contains(d) && from <= d < up_to implies 0 <= d - offset
                < bits0.len() && d - offset <= i32::MAX by {
                assert(old(self).view().docs.contains(d));
            }
        }
        while self.wrappers[self.lead_top].doc < up_to
            invariant
                self.intact(),
                self.same_frame(old(self)),
                old(self).inv(),
                up_to >= 0,
                same_docs(ws0, self.wrappers@),
                ws0 == old(self).wrappers@,
                bits0 == old(bit_set)@,
                from == old(self).view().read_from(),
                from >= 0,
                target == if up_to >= from {
                    up_to as int
                } else {
                    from
                },
                self.lead_top < self.wrappers.len(),
                bit_set@.len() == bits0.len(),
                fits_bits(ws0, from, up_to as int, offset as int, bits0.len() as int),
                load_progress(ws0, self.wrappers@, from, up_to as int, target),
                bits_progress(
                    ws0,
                    self.wrappers@,
                    bits0,
                    bit_set@,
                    from,
                    up_to as int,
                    offset as int,
                ),
            decreases distance(self.wrappers@),
        {
            let p: usize = self.lead_top;
            let ghost before = *self;
            let ghost bits1 = bit_set@;
            assert(self.wrappers[p as int].inv());
            proof {
                lemma_sub_fits(ws0, self.wrappers@, p as int, from, up_to as int, offset as int, bits0.len() as int);
            }
            match self.wrappers[p].scorer.load_approximation(up_to, bit_set, offset) {
                Ok(_) => {},
                Err(e) => {
                    proof {
                        old(self).lemma_failed(&before, self, p as int);
                    }
                    return Err(e);
                },
            }
            let _ = self.wrappers[p].approximation_doc_id();
            self.requeue_lead(Ghost(before));
            proof {
                let w = self.wrappers[p as int];
                assert(self.wrappers@ =~= before.wrappers@.update(p as int, w));
                lemma_load_step(
                    ws0,
                    before.wrappers@,
                    w,
                    p as int,
                    bits0,
                    bits1,
                    bit_set@,
                    from,
                    up_to as int,
                    offset as int,
                    target,
                );
                lemma_distance_update(before.wrappers@, p as int, w);
                self.lemma_lead_in_bounds();
            }
        }
        self.min_other_doc = NO_MORE_DOCS;
        let mut k: usize = 0;
        while k < self.other_iterators.len()
            invariant
                self.intact(),
                self.other_iterators == old(self).other_iterators,
                self.original_order == old(self).original_order,
                self.cost == old(self).cost,
                up_to >= 0,
                same_docs(ws0, self.wrappers@),
                ws0 == old(self).wrappers@,
                bits0 == old(bit_set)@,
                from == old(self).view().read_from(),
                from >= 0,
                target == if up_to >= from {
                    up_to as int
                } else {
                    from
                },
                k <= self.other_iterators.len(),
                is_min_doc(self.wrappers@, k as int, self.min_other_doc as int),
                self.wrappers[self.lead_top as int].doc >= up_to,
                forall|i: int| 0 <= i < k ==> (#[trigger] self.wrappers[i]).doc >= up_to,
                bit_set@.len() == bits0.len(),
                fits_bits(ws0, from, up_to as int, offset as int, bits0.len() as int),
                load_progress(ws0, self.wrappers@, from, up_to as int, target),
                bits_progress(
                    ws0,
                    self.wrappers@,
                    bits0,
                    bit_set@,
                    from,
                    up_to as int,
                    offset as int,
                ),
            decreases self.other_iterators.len() - k,
        {
            let position: usize = self.other_iterators[k];
            let ghost before = *self;
            let ghost bits1 = bit_set@;
            assert(self.wrappers[position as int].inv());
            proof {
                lemma_sub_fits(ws0, self.wrappers@, position as int, from, up_to as int, offset as int, bits0.len() as int);
            }
            match self.wrappers[position].scorer.load_approximation(up_to, bit_set, offset) {
                Ok(_) => {},
                Err(e) => {
                    proof {
                        old(self).lemma_failed(&before, self, position as int);
                    }
                    return Err(e);
                },
            }
            let doc: i32 = self.wrappers[position].approximation_doc_id();
            self.wrappers[position].doc = doc;
            proof {
                let w = self.wrappers[position as int];
                assert(self.wrappers@ =~= before.wrappers@.update(position as int, w));
                lemma_load_step(
                    ws0,
                    before.wrappers@,
                    w,
                    position as int,
                    bits0,
                    bits1,
                    bit_set@,
                    from,
                    up_to as int,
                    offset as int,
                    target,
                );
                self.lemma_other_moved(&before, position as int);
                lemma_min_doc_step(
                    before.wrappers@,
                    self.wrappers@,
                    k as int,
                    self.min_other_doc as int,
                );
            }
            if doc < self.min_other_doc {
                self.min_other_doc = doc;
            }
            k += 1;
        }
        proof {
            assert forall|i: int| 0 <= i < ws0.len() implies (#[trigger] self.wrappers[i]).doc
                >= up_to by {
                if i >= self.other_iterators.len() {
                    self.lemma_lead_is_least(i);
                }
            }
            lemma_load_ends(
                ws0,
                self.wrappers@,
                bits0,
                bit_set@,
                from,
                up_to as int,
                offset as int,
                target,
            );
        }
        self.settle(Ghost(ws0), Ghost(target));
        proof {
            old(self).lemma_same_infallible(self);
        }
        Ok(())
    }
}

impl<S: Scorer> DisjunctionDISIApproximation<S> {
    /// An intact iterator is in a valid state.
    proof fn lemma_valid(&self)
        requires
            self.inv(),
        ensures
            self.view().valid(),
    {
        let ws = self.wrappers@;
        lemma_union_valid(ws);
        if self.doc != -1 && self.doc != NO_MORE_DOCS {
            let i = choose|i: int| 0 <= i < ws.len() && self.doc == (#[trigger] ws[i]).doc;
            assert(ws[i].scorer.view().ids.docs.contains(self.doc as int));
        }
    }

    /// The current document is the lesser of that of the queue and that of the
    /// other wrappers.
    proof fn lemma_doc_is_lead_or_other(&self)
        requires
            self.inv(),
        ensures
            self.lead_top < self.wrappers.len(),
            self.doc == if self.wrappers[self.lead_top as int].doc < self.min_other_doc {
                self.wrappers[self.lead_top as int].doc
            } else {
                self.min_other_doc
            },
    {
        self.lemma_lead_in_bounds();
        let ws = self.wrappers@;
        let k = self.other_iterators.len() as int;
        let lead = ws[self.lead_top as int].doc;
        assert(self.doc <= lead);
        if self.min_other_doc != NO_MORE_DOCS {
            let i = choose|i: int| 0 <= i < k && self.min_other_doc == (#[trigger] ws[i]).doc;
            assert(self.doc <= ws[i].doc);
        }
        if self.doc != NO_MORE_DOCS {
            let i = choose|i: int| 0 <= i < ws.len() && self.doc == (#[trigger] ws[i]).doc;
            if i >= k {
                self.lemma_lead_is_least(i);
            } else {
                assert(self.min_other_doc <= ws[i].doc);
            }
        }
    }

    /// Moving a wrapper outside the queue leaves the structure intact.
    proof fn lemma_other_moved(&self, before: &Self, p: int)
        requires
            before.intact(),
            0 <= p < before.other_iterators.len(),
            self.lead_iterators == before.lead_iterators,
            self.other_iterators == before.other_iterators,
            self.original_order == before.original_order,
            self.lead_top == before.lead_top,
            self.wrappers.len() == before.wrappers.len(),
            forall|i: int|
                0 <= i < before.wrappers.len() && i != p ==> #[trigger] self.wrappers[i]
                    == before.wrappers[i],
            self.wrappers[p].inv(),
            self.wrappers[p].scorer.view().ids.valid(),
            self.wrappers[p].doc == self.wrappers[p].scorer.view().ids.doc,
        ensures
            self.intact(),
            self.wrappers[self.lead_top as int] == before.wrappers[self.lead_top as int],
    {
        let q = self.lead_iterators@;
        lists_range_bounds(
            q,
            self.other_iterators.len() as int,
            self.wrappers.len() as int,
        );
        assert forall|c: int| #![trigger q[c]] 0 < c < q.len() && parent(c) >= 0 implies by_doc_le(
            self.wrappers@,
        )(q[parent(c)], q[c]) by {
            assert(by_doc_le(before.wrappers@)(q[parent(c)], q[c]));
            assert(self.wrappers[q[c] as int] == before.wrappers[q[c] as int]);
            assert(self.wrappers[q[parent(c)] as int] == before.wrappers[q[parent(c)] as int]);
        }
    }

    /// A wrapper that fails to move shows that the iterator is fallible, and
    /// leaves it so.
    proof fn lemma_failed(&self, before: &Self, after: &Self, p: int)
        requires
            same_docs(self.wrappers@, before.wrappers@),
            before.wrappers.len() == after.wrappers.len(),
            0 <= p < before.wrappers.len(),
            forall|i: int|
                0 <= i < before.wrappers.len() && i != p ==> #[trigger] after.wrappers[i]
                    == before.wrappers[i],
            !before.wrappers[p].scorer.infallible(),
            !after.wrappers[p].scorer.infallible(),
        ensures
            !self.infallible(),
            !after.infallible(),
    {
        assert(!self.wrappers[p].scorer.infallible());
    }

    proof fn lemma_same_infallible(&self, other: &Self)
        requires
            same_docs(self.wrappers@, other.wrappers@),
        ensures
            self.infallible() == other.infallible(),
    {
        assert forall|i: int| 0 <= i < self.wrappers.len() implies #[trigger] self.wrappers[i].scorer.infallible()
            == other.wrappers[i].scorer.infallible() by {
        }
        if self.infallible() {
            assert forall|i: int| 0 <= i < other.wrappers.len() implies #[trigger] other.wrappers[i].scorer.infallible() by {
                assert(self.wrappers[i].scorer.infallible());
            }
        }
    }

    /// Moves to the least document of the wrappers.
    fn settle(&mut self, Ghost(ws0): Ghost<Seq<DisiWrapper<S>>>, Ghost(target): Ghost<int>)
        requires
            old(self).intact(),
            target >= 0,
            all_first_from(old(self).wrappers@, target),
            is_min_doc(
                old(self).wrappers@,
                old(self).other_iterators.len() as int,
                old(self).min_other_doc as int,
            ),
            same_docs(ws0, old(self).wrappers@),
        ensures
            final(self).inv(),
            final(self).view().valid(),
            final(self).wrappers == old(self).wrappers,
            final(self).original_order == old(self).original_order,
            final(self).other_iterators == old(self).other_iterators,
            final(self).lead_iterators == old(self).lead_iterators,
            final(self).cost == old(self).cost,
            final(self).view().docs == union_docs(ws0),
            is_first_from(union_docs(ws0), target, final(self).doc as int),
    {
        proof {
            self.lemma_lead_in_bounds();
        }
        let lead: i32 = self.wrappers[self.lead_top].doc;
        self.doc = if lead < self.min_other_doc {
            lead
        } else {
            self.min_other_doc
        };
        proof {
            let ws = self.wrappers@;
            let k = self.other_iterators.len() as int;
            assert forall|i: int| 0 <= i < ws.len() implies self.doc <= (#[trigger] ws[i]).doc by {
                if i >= k {
                    self.lemma_lead_is_least(i);
                }
            }
            if self.doc != NO_MORE_DOCS && lead >= self.min_other_doc {
                let i = choose|i: int| 0 <= i < k && self.min_other_doc == (#[trigger] ws[i]).doc;
                assert(ws[i].doc == self.doc);
            }
            lemma_least_is_first(ws, target, self.doc as int);
            lemma_same_union(ws0, ws);
            lemma_union_valid(ws);
            first_from_in_range(DocIds { docs: union_docs(ws), doc: -1 }, target, self.doc as int);
            self.lemma_valid();
        }
    }
}

/// The sort keys that order wrappers by decreasing cost.
pub open spec fn by_decreasing_cost<S: Scorer>(ws: Seq<DisiWrapper<S>>) -> Seq<(i64, i64)> {
    Seq::new(ws.len(), |i: int| ((-1 - ws[i].cost) as i64, 0i64))
}

/// The scorers by decreasing cost.
pub open spec fn scorers_by_decreasing_cost<S: Scorer>(scorers: Seq<S>) -> Seq<(i64, i64)> {
    Seq::new(scorers.len(), |i: int| ((-1 - scorers[i].view().cost) as i64, 0i64))
}

/// Whether clauses wrap the scorers, by decreasing cost; of scorers with equal costs, the one
/// that was supplied first comes first.
pub open spec fn wrap_by_cost<S: Scorer>(scorers: Seq<S>, ws: Seq<DisiWrapper<S>>) -> bool {
    exists|order: Seq<usize>|
        #![trigger is_stable_order(scorers_by_decreasing_cost(scorers), scorers.len() as int, order)]
        {
            &&& is_stable_order(
                scorers_by_decreasing_cost(scorers),
                scorers.len() as int,
                order,
            )
            &&& ws.len() == scorers.len()
            &&& forall|i: int|
                0 <= i < ws.len() ==> (#[trigger] ws[i]).scorer == scorers[order[i] as int]
        }
}

/// The sum of the costs of the wrappers.
pub open spec fn total_cost<S: Scorer>(ws: Seq<DisiWrapper<S>>) -> int
    decreases ws.len(),
{
    if ws.len() == 0 {
        0
    } else {
        total_cost(ws.drop_last()) + ws.last().cost
    }
}

/// How much the wrappers in the queue may cost together, each counted up to the
/// lead cost: one and a half times the lead cost.
pub open spec fn reorder_threshold(lead_cost: i64) -> i64 {
    let t = lead_cost.wrapping_add(lead_cost >> 1);
    if t < 0 {
        i64::MAX
    } else {
        t
    }
}

/// The number of wrappers up to `idx` that stay out of the queue, when those
/// after `idx` are in it and cost `used` together.
pub open spec fn left_out<S: Scorer>(
    ws: Seq<DisiWrapper<S>>,
    lead_cost: i64,
    idx: int,
    used: i64,
) -> int
    decreases idx + 1,
{
    if idx < 0 {
        0
    } else {
        let inc = if ws[idx].cost < lead_cost {
            ws[idx].cost
        } else {
            lead_cost
        };
        let next = used.wrapping_add(inc);
        if next < 0 || next > reorder_threshold(lead_cost) {
            idx + 1
        } else {
            left_out(ws, lead_cost, idx - 1, next)
        }
    }
}

/// The number of wrappers that stay out of the queue; at least one is in it.
pub open spec fn num_left_out<S: Scorer>(ws: Seq<DisiWrapper<S>>, lead_cost: i64) -> int {
    let k = left_out(ws, lead_cost, ws.len() - 1, 0);
    if k == ws.len() {
        k - 1
    } else {
        k
    }
}

proof fn lemma_total_cost_swap_end<S: Scorer>(ws: Seq<DisiWrapper<S>>, k: int)
    requires
        0 <= k < ws.len(),
    ensures
        total_cost(ws.take(k + 1)) == total_cost(ws.take(k)) + ws[k].cost,
{
    assert(ws.take(k + 1).drop_last() =~= ws.take(k));
}

impl<S: Scorer> DisjunctionDISIApproximation<S> {
    /// Creates an iterator over the documents of all `sub_iterators`.
    ///
    /// `lead_cost` is the number of times that the iterator is expected to be
    /// advanced.
    #[verifier::rlimit(30)]
    pub fn new(sub_iterators: Vec<DisiWrapper<S>>, lead_cost: i64) -> (r: Self)
        requires
            0 < sub_iterators@.len() < i32::MAX,
            forall|i: int| 0 <= i < sub_iterators@.len() ==> {
                &&& (#[trigger] sub_iterators@[i]).inv()
                &&& sub_iterators@[i].doc == -1
                &&& sub_iterators@[i].scorer.view().ids.doc == -1
            },
        ensures
            r.inv(),
            r.view() == (DocIds { docs: union_docs(sub_iterators@), doc: -1 }),
            r.infallible() <==> forall|i: int|
                0 <= i < sub_iterators@.len()
                    ==> #[trigger] sub_iterators@[i].scorer.infallible(),
            exists|order: Seq<usize>|
                #![trigger is_stable_order(by_decreasing_cost(sub_iterators@), sub_iterators@.len() as int, order)]
                {
                    &&& is_stable_order(
                        by_decreasing_cost(sub_iterators@),
                        sub_iterators@.len() as int,
                        order,
                    )
                    &&& r.clauses() == Seq::new(
                        sub_iterators@.len(),
                        |i: int| sub_iterators@[order[i] as int],
                    )
                    &&& forall|i: int|
                        0 <= i < order.len() ==> r.supplied_order()[#[trigger] order[i] as int] == i
                },
            r.supplied_order().len() == sub_iterators@.len(),
            r.num_others() == num_left_out(r.clauses(), lead_cost),
            r.queue() == position_range(r.num_others(), sub_iterators@.len() as int),
            exists|wraps: int|
                r.reported_cost() == total_cost(r.clauses()) + #[trigger] (wraps
                    * 0x1_0000_0000_0000_0000),
    {
        let ghost subs = sub_iterators@;
        let n: usize = sub_iterators.len();
        let mut keys: Vec<(i64, i64)> = Vec::with_capacity(n);
        let mut i: usize = 0;
        while i < n
            invariant
                n == sub_iterators.len(),
                subs == sub_iterators@,
                i <= n,
                keys@ =~= by_decreasing_cost(subs).take(i as int),
            decreases n - i,
        {
            keys.push((descending(sub_iterators[i].cost), 0));
            i += 1;
        }
        assert(keys@ =~= by_decreasing_cost(subs));
        let order: Vec<usize> = stable_order(keys.as_slice());
        let mut rest: Vec<DisiWrapper<S>> = sub_iterators;
        let mut slots: Vec<Option<DisiWrapper<S>>> = Vec::with_capacity(n);
        while rest.len() > 0
            invariant
                n == subs.len(),
                rest@.len() <= n,
                rest@ =~= subs.take(rest@.len() as int),
                slots@.len() == n - rest@.len(),
                forall|j: int| 0 <= j < slots@.len() ==> #[trigger] slots@[j] == Some(subs[n - 1 - j]),
            decreases rest.len(),
        {
            let last = rest.pop();
            slots.push(last);
        }
        let mut wrappers: Vec<DisiWrapper<S>> = Vec::with_capacity(n);
        let mut original_order: Vec<usize> = vec![0usize; n];
        let mut position: usize = 0;
        while position < n
            invariant
                n == subs.len(),
                position <= n,
                is_stable_order(by_decreasing_cost(subs), n as int, order@),
                slots@.len() == n,
                original_order@.len() == n,
                wrappers@ =~= Seq::new(position as nat, |i: int| subs[order@[i] as int]),
                forall|j: int| 0 <= j < n ==> #[trigger] original_order@[j] < n,
                forall|i: int|
                    0 <= i < position ==> original_order@[#[trigger] order@[i] as int] == i,
                forall|i: int|
                    position <= i < n ==> slots@[n - 1 - #[trigger] order@[i]] == Some(
                        subs[order@[i] as int],
                    ),
            decreases n - position,
        {
            let source: usize = order[position];
            original_order[source] = position;
            let slot: usize = n - 1 - source;
            assert(slots@[slot as int] == Some(subs[source as int]));
            let taken = slots[slot].take();
            match taken {
                Some(w) => {
                    wrappers.push(w);
                },
                None => {
                    assert(false);
                },
            }
            position += 1;
        }
        proof {
            assert forall|i: int| 0 <= i < n implies {
                &&& (#[trigger] wrappers@[i]).inv()
                &&& wrappers@[i].doc == -1
                &&& wrappers@[i].scorer.view().ids.doc == -1
            } by {
                assert(wrappers@[i] == subs[order@[i] as int]);
            }
        }
        let ghost ws = wrappers@;
        let mut threshold: i64 = lead_cost.wrapping_add(lead_cost >> 1);
        if threshold < 0 {
            threshold = i64::MAX;
        }
        assert(threshold == reorder_threshold(lead_cost));
        assert(ws.take(n as int) =~= ws);
        let mut cost: i64 = 0;
        let ghost mut wraps: int = 0;
        let mut reorder_cost: i64 = 0;
        // The wrappers before this position stay out of the queue.
        let mut others: usize = n;
        let mut splitting: bool = true;
        while splitting && others > 0
            invariant
                n == ws.len(),
                n > 0,
                wrappers@ == ws,
                others <= n,
                threshold == reorder_threshold(lead_cost),
                left_out(ws, lead_cost, n - 1, 0) == if splitting {
                    left_out(ws, lead_cost, others - 1, reorder_cost)
                } else {
                    others as int
                },
                cost == total_cost(ws) - total_cost(ws.take(others as int)) + wraps
                    * 0x1_0000_0000_0000_0000,
            decreases others, if splitting { 1int } else { 0int },
        {
            let last_cost: i64 = wrappers[others - 1].cost;
            let inc: i64 = if last_cost < lead_cost {
                last_cost
            } else {
                lead_cost
            };
            let next: i64 = reorder_cost.wrapping_add(inc);
            if next < 0 || next > threshold {
                splitting = false;
            } else {
                reorder_cost = next;
                let sum: i64 = cost.wrapping_add(last_cost);
                proof {
                    lemma_total_cost_swap_end(ws, others - 1);
                    wraps = wraps + wrap_count(cost, last_cost);
                }
                cost = sum;
                others -= 1;
            }
        }
        if others == n {
            let last_cost: i64 = wrappers[n - 1].cost;
            let sum: i64 = cost.wrapping_add(last_cost);
            proof {
                lemma_total_cost_swap_end(ws, n - 1);
                wraps = wraps + wrap_count(cost, last_cost);
            }
            cost = sum;
            others = n - 1;
        }
        let mut lead_iterators = DisiPriorityQueue::of_max_size(n - others);
        let pq_entries: Vec<usize> = positions(others, n);
        lead_iterators.add_all(wrappers.as_slice(), pq_entries.as_slice());
        let other_iterators: Vec<usize> = positions(0, others);
        let mut min_other_doc: i32 = NO_MORE_DOCS;
        let mut j: usize = 0;
        while j < others
            invariant
                n == ws.len(),
                wrappers@ == ws,
                others < n,
                j <= others,
                forall|i: int| 0 <= i < n ==> (#[trigger] ws[i]).doc == -1,
                is_min_doc(ws, j as int, min_other_doc as int),
                cost == total_cost(ws) - total_cost(ws.take(others as int)) + total_cost(
                    ws.take(j as int),
                ) + wraps * 0x1_0000_0000_0000_0000,
            decreases others - j,
        {
            let c: i64 = wrappers[j].cost;
            let sum: i64 = cost.wrapping_add(c);
            proof {
                lemma_total_cost_swap_end(ws, j as int);
                wraps = wraps + wrap_count(cost, c);
                lemma_min_doc_step(ws, ws, j as int, min_other_doc as int);
            }
            cost = sum;
            if wrappers[j].doc < min_other_doc {
                min_other_doc = wrappers[j].doc;
            }
            j += 1;
        }
        let lead_top: usize = match lead_iterators.top() {
            Some(top) => top,
            None => 0,
        };
        let r = DisjunctionDISIApproximation {
            wrappers,
            original_order,
            lead_iterators,
            other_iterators,
            cost,
            lead_top,
            min_other_doc,
            doc: -1,
        };
        proof {
            r.lemma_created(subs, order@);
        }
        r
    }

    /// A queue over wrappers that have not moved is in order.
    #[verifier::spinoff_prover]
    #[verifier::rlimit(40)]
    proof fn lemma_created(&self, subs: Seq<DisiWrapper<S>>, order: Seq<usize>)
        requires
            is_stable_order(by_decreasing_cost(subs), subs.len() as int, order),
            self.wrappers@ == Seq::new(subs.len(), |i: int| subs[order[i] as int]),
            self.original_order.len() == subs.len(),
            forall|j: int| 0 <= j < subs.len() ==> #[trigger] self.original_order[j] < subs.len(),
            forall|i: int|
                0 <= i < order.len() ==> self.original_order[#[trigger] order[i] as int] == i,
            0 < subs.len() < i32::MAX,
            self.other_iterators.len() < subs.len(),
            self.other_iterators@ == position_range(0, self.other_iterators.len() as int),
            self.lead_iterators.wf(),
            self.lead_iterators@ == heapified(
                position_range(self.other_iterators.len() as int, subs.len() as int),
                by_doc(self.wrappers@),
                ((subs.len() - self.other_iterators.len()) / 2) as int,
            ),
            self.lead_iterators@.len() > 0 ==> self.lead_top == self.lead_iterators@[0],
            synced(self.wrappers@),
            forall|i: int| 0 <= i < subs.len() ==> (#[trigger] self.wrappers@[i]).doc == -1,
            is_min_doc(
                self.wrappers@,
                self.other_iterators.len() as int,
                self.min_other_doc as int,
            ),
            self.doc == -1,
        ensures
            self.inv(),
            union_docs(self.wrappers@) == union_docs(subs),
            self.infallible() <==> forall|i: int|
                0 <= i < subs.len() ==> #[trigger] subs[i].scorer.infallible(),
            self.lead_iterators@ == position_range(
                self.other_iterators.len() as int,
                subs.len() as int,
            ),
    {
        let ws = self.wrappers@;
        let n = subs.len() as int;
        let k = self.other_iterators.len() as int;
        let q = position_range(k, n);
        lemma_permuted(subs, ws, order);
        assert forall|a: int, b: int|
            0 <= a < n && 0 <= b < n && a != b implies self.original_order@[a]
            != self.original_order@[b] by {
            assert(order.contains(a as usize) && order.contains(b as usize));
            let i = choose|i: int| 0 <= i < order.len() && order[i] == a as usize;
            let j = choose|j: int| 0 <= j < order.len() && order[j] == b as usize;
            assert(self.original_order[order[i] as int] == i);
            assert(self.original_order[order[j] as int] == j);
        }
        assert forall|i: int, j: int|
            0 <= i < q.len() && 0 <= j < q.len() implies !by_doc(ws)(
            #[trigger] q[i],
            #[trigger] q[j],
        ) by {
            assert(ws[k + i].doc == -1 && ws[k + j].doc == -1);
        }
        heapified_of_equals(q, by_doc(ws), (q.len() / 2) as int);
        assert(q[0] == k);
        assert forall|c: int| #![trigger q[c]] 0 < c < q.len() && parent(c) >= 0 implies by_doc_le(
            ws,
        )(q[parent(c)], q[c]) by {
            assert(ws[k + c].doc == -1 && ws[k + parent(c)].doc == -1);
        }
        assert forall|p: usize| q.contains(p) <==> k <= p < n by {
            if k <= p < n {
                assert(q[p - k] == p);
            }
        }
        assert(ws[0].doc == -1);
    }
}

/// A permutation keeps every wrapper.
proof fn lemma_permuted_contains<S: Scorer>(
    subs: Seq<DisiWrapper<S>>,
    ws: Seq<DisiWrapper<S>>,
    order: Seq<usize>,
    i: int,
) -> (j: int)
    requires
        is_stable_order(by_decreasing_cost(subs), subs.len() as int, order),
        ws == Seq::new(subs.len(), |i: int| subs[order[i] as int]),
        subs.len() < i32::MAX,
        0 <= i < subs.len(),
    ensures
        0 <= j < ws.len(),
        ws[j] == subs[i],
{
    assert(order.contains(i as usize));
    let j = choose|j: int| 0 <= j < order.len() && order[j] == i as usize;
    assert(ws[j] == subs[order[j] as int]);
    j
}

/// Permuted wrappers have the same documents together, and fail alike.
proof fn lemma_permuted<S: Scorer>(
    subs: Seq<DisiWrapper<S>>,
    ws: Seq<DisiWrapper<S>>,
    order: Seq<usize>,
)
    requires
        is_stable_order(by_decreasing_cost(subs), subs.len() as int, order),
        ws == Seq::new(subs.len(), |i: int| subs[order[i] as int]),
        subs.len() < i32::MAX,
    ensures
        union_docs(ws) == union_docs(subs),
        (forall|i: int| 0 <= i < ws.len() ==> #[trigger] ws[i].scorer.infallible()) <==> (forall|
            i: int,
        |
            0 <= i < subs.len() ==> #[trigger] subs[i].scorer.infallible()),
{
    let n = subs.len() as int;
    assert forall|d: int| union_docs(ws).contains(d) == union_docs(subs).contains(d) by {
        if union_docs(ws).contains(d) {
            let i = choose|i: int|
                0 <= i < n && #[trigger] ws[i].scorer.view().ids.docs.contains(d);
            assert(subs[order[i] as int].scorer.view().ids.docs.contains(d));
        }
        if union_docs(subs).contains(d) {
            let i = choose|i: int|
                0 <= i < n && #[trigger] subs[i].scorer.view().ids.docs.contains(d);
            let j = lemma_permuted_contains(subs, ws, order, i);
            assert(ws[j].scorer.view().ids.docs.contains(d));
        }
    }
    assert(union_docs(ws) =~= union_docs(subs));
    if forall|i: int| 0 <= i < ws.len() ==> #[trigger] ws[i].scorer.infallible() {
        assert forall|i: int| 0 <= i < n implies #[trigger] subs[i].scorer.infallible() by {
            let j = lemma_permuted_contains(subs, ws, order, i);
            assert(ws[j].scorer.infallible());
        }
    }
    if forall|i: int| 0 <= i < n ==> #[trigger] subs[i].scorer.infallible() {
        assert forall|i: int| 0 <= i < n implies #[trigger] ws[i].scorer.infallible() by {
            assert(subs[order[i] as int].scorer.infallible());
        }
    }
}

/// By how many times 2^64 the sum of two numbers misses their wrapping sum.
spec fn wrap_count(a: i64, b: i64) -> int {
    if a + b > i64::MAX {
        -1
    } else if a + b < i64::MIN {
        1
    } else {
        0
    }
}

/// The positions among the first `k` whose wrapper is on `doc`.
pub open spec fn positions_on<S: Scorer>(ws: Seq<DisiWrapper<S>>, k: int, doc: int) -> Seq<usize>
    decreases k,
{
    if k <= 0 {
        Seq::empty()
    } else if ws[k - 1].doc == doc {
        positions_on(ws, k - 1, doc).push((k - 1) as usize)
    } else {
        positions_on(ws, k - 1, doc)
    }
}

proof fn lemma_positions_on<S: Scorer>(ws: Seq<DisiWrapper<S>>, k: int, doc: int)
    requires
        0 <= k <= ws.len() <= usize::MAX,
    ensures
        positions_on(ws, k, doc).no_duplicates(),
        forall|p: usize| #[trigger]
            positions_on(ws, k, doc).contains(p) <==> p < k && ws[p as int].doc == doc,
        forall|i: int|
            0 <= i < positions_on(ws, k, doc).len() ==> #[trigger] positions_on(ws, k, doc)[i] < k,
    decreases k,
{
    if k > 0 {
        lemma_positions_on(ws, k - 1, doc);
        let a = positions_on(ws, k - 1, doc);
        let b = positions_on(ws, k, doc);
        assert forall|p: usize| #[trigger] b.contains(p) <==> p < k && ws[p as int].doc == doc by {
            if b.contains(p) {
                let i = choose|i: int| 0 <= i < b.len() && b[i] == p;
                if i < a.len() {
                    assert(a[i] == p);
                    assert(a.contains(p));
                }
            }
            if p < k - 1 && ws[p as int].doc == doc {
                assert(a.contains(p));
                let i = choose|i: int| 0 <= i < a.len() && a[i] == p;
                assert(b[i] == p);
            }
            if p == k - 1 && ws[p as int].doc == doc {
                assert(b[b.len() - 1] == p);
            }
        }
    }
}

impl<S: Scorer> DisjunctionDISIApproximation<S> {
    /// The positions of the clauses on the current document: those out of the
    /// queue from the last to the first, then those of the queue.
    pub open spec fn current_list(&self) -> Seq<usize> {
        positions_on(self.clauses(), self.num_others(), self.view().doc).reverse() + (
        if self.clauses()[self.queue()[0] as int].doc == self.view().doc {
            top_list_of(self.queue(), self.clauses())
        } else {
            Seq::empty()
        })
    }

    /// Returns the number of clauses.
    pub fn len(&self) -> (r: usize)
        ensures
            r == self.clauses().len(),
    {
        self.wrappers.len()
    }

    /// Returns whether there is no clause.
    pub fn is_empty(&self) -> (r: bool)
        ensures
            r == (self.clauses().len() == 0),
    {
        self.wrappers.len() == 0
    }

    /// Returns the clause that was supplied at position `i`.
    pub fn sub_scorer(&self, i: usize) -> (r: &DisiWrapper<S>)
        requires
            self.inv(),
            i < self.clauses().len(),
        ensures
            *r == self.clauses()[self.supplied_order()[i as int] as int],
            r.inv(),
    {
        &self.wrappers[self.original_order[i]]
    }

    /// Returns the clause at `position` in the order of decreasing costs.
    pub fn wrapper(&self, position: usize) -> (r: &DisiWrapper<S>)
        requires
            position < self.clauses().len(),
        ensures
            *r == self.clauses()[position as int],
    {
        &self.wrappers[position]
    }

    /// Returns the clauses in the order of decreasing costs.
    pub fn wrappers(&self) -> (r: &[DisiWrapper<S>])
        ensures
            r@ == self.clauses(),
    {
        self.wrappers.as_slice()
    }

    /// Returns the clauses in the order of decreasing costs.
    pub fn wrappers_mut(&mut self) -> (r: &mut [DisiWrapper<S>])
        ensures
            r@ == old(self).clauses(),
            final(self).clauses() == final(r)@,
            final(self).supplied_order() == old(self).supplied_order(),
    {
        self.wrappers.as_mut_slice()
    }

    /// Returns the positions of the clauses on the current document.
    pub fn top_list(&self) -> (r: Vec<usize>)
        requires
            self.inv(),
        ensures
            r@ == self.current_list(),
    {
        proof {
            self.lemma_lead_in_bounds();
            self.lemma_doc_is_lead_or_other();
            lemma_positions_on(self.wrappers@, self.num_others(), self.doc as int);
        }
        if self.wrappers[self.lead_top].doc < self.min_other_doc {
            let r = self.lead_iterators.top_list(self.wrappers.as_slice());
            proof {
                let none = positions_on(self.wrappers@, self.num_others(), self.doc as int);
                if none.len() > 0 {
                    assert(none.contains(none[0]));
                    assert(self.min_other_doc <= self.wrappers[none[0] as int].doc);
                }
                assert(none =~= Seq::<usize>::empty());
                assert(none.reverse() =~= Seq::<usize>::empty());
                assert(r@ =~= self.current_list());
            }
            r
        } else {
            self.compute_top_list()
        }
    }

    fn compute_top_list(&self) -> (r: Vec<usize>)
        requires
            self.inv(),
            self.lead_top < self.wrappers.len(),
            self.wrappers[self.lead_top as int].doc >= self.min_other_doc,
            self.doc == self.min_other_doc,
            in_bounds(self.lead_iterators@, self.wrappers@.len()),
        ensures
            r@ == self.current_list(),
    {
        let mut lead: Vec<usize> = if self.wrappers[self.lead_top].doc == self.min_other_doc {
            self.lead_iterators.top_list(self.wrappers.as_slice())
        } else {
            Vec::new()
        };
        let mut top_list: Vec<usize> = Vec::new();
        let ghost all = positions_on(self.wrappers@, self.num_others(), self.doc as int);
        let mut k: usize = self.other_iterators.len();
        assert(all.subrange(all.len() as int, all.len() as int).reverse() =~= Seq::<usize>::empty());
        while k > 0
            invariant
                self.inv(),
                self.doc == self.min_other_doc,
                k <= self.other_iterators.len(),
                all == positions_on(self.wrappers@, self.num_others(), self.doc as int),
                all.len() >= positions_on(self.wrappers@, k as int, self.doc as int).len(),
                all.take(
                    positions_on(self.wrappers@, k as int, self.doc as int).len() as int,
                ) =~= positions_on(self.wrappers@, k as int, self.doc as int),
                top_list@ =~= all.skip(
                    positions_on(self.wrappers@, k as int, self.doc as int).len() as int,
                ).reverse(),
            decreases k,
        {
            let position: usize = self.other_iterators[k - 1];
            let ghost at = positions_on(self.wrappers@, k as int, self.doc as int);
            let ghost next = positions_on(self.wrappers@, k - 1, self.doc as int);
            if self.wrappers[position].doc == self.min_other_doc {
                top_list.push(position);
                proof {
                    assert(at == next.push(position));
                    assert(all[next.len() as int] == at[next.len() as int]);
                    assert(all.take(next.len() as int) =~= next);
                    assert(all.skip(next.len() as int).reverse() =~= all.skip(
                        at.len() as int,
                    ).reverse().push(position));
                }
            }
            k -= 1;
        }
        top_list.append(&mut lead);
        assert(top_list@ =~= self.current_list());
        top_list
    }

    /// Confirms the current document of the clause at `position`.
    ///
    /// # Errors
    ///
    /// Whatever the confirmation fails with.
    pub fn confirm(&mut self, position: usize) -> (r: Result<bool, LuceneError>)
        requires
            old(self).inv(),
            position < old(self).clauses().len(),
            old(self).clauses()[position as int].doc == old(self).view().doc,
            0 <= old(self).view().doc < NO_MORE_DOCS,
        ensures
            old(self).clauses()[position as int].scorer.infallible() || !old(
                self,
            ).clauses()[position as int].two_phase ==> r is Ok,
            r is Ok ==> final(self).inv(),
            final(self).view() == old(self).view(),
            final(self).infallible() == old(self).infallible(),
            final(self).supplied_order() == old(self).supplied_order(),
            final(self).num_others() == old(self).num_others(),
            final(self).queue() == old(self).queue(),
            final(self).reported_cost() == old(self).reported_cost(),
            same_clauses(old(self).clauses(), final(self).clauses()),
            forall|i: int|
                0 <= i < old(self).clauses().len() ==> (#[trigger] final(self).clauses()[i]).doc
                    == old(self).clauses()[i].doc,
            forall|i: int|
                0 <= i < old(self).clauses().len() && i != position ==> #[trigger] final(
                    self).clauses()[i] == old(self).clauses()[i],
            r matches Ok(b) ==> b == old(self).clauses()[position as int].scorer.view().hits.contains(
                old(self).view().doc,
            ),
            r is Ok && old(self).clauses()[position as int].two_phase ==> final(
                self).clauses()[position as int].scorer.confirmed() == old(
                self,
            ).clauses()[position as int].scorer.confirmed().push(old(self).view().doc),
    {
        let ghost ws0 = self.wrappers@;
        assert(self.wrappers[position as int].inv());
        assert(self.wrappers[position as int].scorer.view().ids.valid());
        let r = self.wrappers[position].matches();
        proof {
            let ws = self.wrappers@;
            assert(same_docs(ws0, ws));
            lemma_same_union(ws0, ws);
            old(self).lemma_same_infallible(self);
            if r is Ok {
                old(self).lemma_unmoved(self);
            }
        }
        r
    }

    /// As long as no clause moves, the iteration stays as it is.
    proof fn lemma_unmoved(&self, after: &Self)
        requires
            self.inv(),
            after.same_frame(self),
            after.lead_iterators == self.lead_iterators,
            after.lead_top == self.lead_top,
            same_docs(self.wrappers@, after.wrappers@),
            forall|i: int| 0 <= i < after.wrappers@.len() ==> {
                &&& (#[trigger] after.wrappers@[i]).inv()
                &&& after.wrappers@[i].doc == self.wrappers@[i].doc
                &&& after.wrappers@[i].scorer.view() == self.wrappers@[i].scorer.view()
            },
        ensures
            after.inv(),
    {
        let ws0 = self.wrappers@;
        let ws = after.wrappers@;
        let q = self.lead_iterators@;
        lists_range_bounds(q, self.other_iterators.len() as int, self.wrappers.len() as int);
        assert forall|c: int| #![trigger q[c]] 0 < c < q.len() && parent(c) >= 0 implies by_doc_le(
            ws,
        )(q[parent(c)], q[c]) by {
            assert(by_doc_le(ws0)(q[parent(c)], q[c]));
        }
        assert forall|k: int, m: int| #[trigger] is_min_doc(ws0, k, m) && 0 <= k
            <= ws0.len() implies is_min_doc(ws, k, m) by {
            if m != NO_MORE_DOCS {
                let i = choose|i: int| 0 <= i < k && m == (#[trigger] ws0[i]).doc;
                assert(ws[i].doc == m);
            }
        }
        assert(is_min_doc(ws0, ws0.len() as int, self.doc as int));
        assert(is_min_doc(ws0, self.other_iterators.len() as int, self.min_other_doc as int));
        if self.doc != -1 {
            assert forall|i: int| 0 <= i < ws.len() implies is_first_from(
                (#[trigger] ws[i]).scorer.view().ids.docs,
                self.doc as int,
                ws[i].doc as int,
            ) by {
                assert(is_first_from(
                    ws0[i].scorer.view().ids.docs,
                    self.doc as int,
                    ws0[i].doc as int,
                ));
            }
        }
    }

    /// The clauses are intact, and each one is on its first document at or after
    /// the current one.
    pub proof fn clauses_are_positioned(&self)
        requires
            self.inv(),
        ensures
            self.view().valid(),
            self.view().docs == union_docs(self.clauses()),
            0 < self.clauses().len() < i32::MAX,
            self.num_others() < self.clauses().len(),
            self.supplied_order().len() == self.clauses().len(),
            self.supplied_order().no_duplicates(),
            forall|i: int|
                0 <= i < self.clauses().len() ==> #[trigger] self.supplied_order()[i]
                    < self.clauses().len(),
            forall|i: int| 0 <= i < self.clauses().len() ==> {
                &&& (#[trigger] self.clauses()[i]).inv()
                &&& self.clauses()[i].doc == self.clauses()[i].scorer.view().ids.doc
                &&& self.view().doc >= 0 ==> is_first_from(
                    self.clauses()[i].scorer.view().ids.docs,
                    self.view().doc,
                    self.clauses()[i].doc as int,
                )
                &&& self.view().doc == -1 ==> self.clauses()[i].doc == -1
            },
            self.infallible() <==> forall|i: int|
                0 <= i < self.clauses().len() ==> #[trigger] self.clauses()[i].scorer.infallible(),
    {
        self.lemma_valid();
        if forall|i: int|
            0 <= i < self.clauses().len() ==> #[trigger] self.clauses()[i].scorer.infallible() {
            assert forall|i: int| 0 <= i < self.wrappers.len() implies #[trigger] self.wrappers[i].scorer.infallible() by {
                assert(self.clauses()[i].scorer.infallible());
            }
        }
        if self.infallible() {
            assert forall|i: int| 0 <= i < self.clauses().len() implies #[trigger] self.clauses()[i].scorer.infallible() by {
                assert(self.wrappers[i].scorer.infallible());
            }
        }
    }

    /// The list of the current document holds the clauses on it, once each.
    pub proof fn current_list_is_complete(&self, position: usize)
        requires
            self.inv(),
        ensures
            self.current_list().contains(position) <==> {
                &&& position < self.clauses().len()
                &&& self.clauses()[position as int].doc == self.view().doc
            },
            self.current_list().no_duplicates(),
    {
        self.lemma_lead_in_bounds();
        self.lemma_doc_is_lead_or_other();
        let ws = self.wrappers@;
        let k = self.num_others();
        let q = self.queue();
        let doc = self.doc as int;
        let a = positions_on(ws, k, doc);
        let b = if ws[q[0] as int].doc == doc {
            top_list_of(q, ws)
        } else {
            Seq::empty()
        };
        let list = self.current_list();
        lemma_positions_on(ws, k, doc);
        assert forall|p: usize| #[trigger] b.contains(p) <==> k <= p < ws.len() && ws[p as int].doc
            == doc by {
            top_list_is_least_document(q, ws, p);
            if k <= p < ws.len() && ws[p as int].doc == doc {
                self.lemma_lead_is_least(p as int);
                assert(ws[q[0] as int].doc >= self.doc);
                assert forall|j: int| 0 <= j < q.len() implies ws[p as int].doc <= ws[
                #[trigger] q[j] as int].doc by {
                    assert(q.contains(q[j]));
                    self.lemma_lead_is_least(q[j] as int);
                }
            }
            if b.contains(p) {
                assert(q.contains(p));
                assert(ws[p as int].doc <= ws[q[0] as int].doc);
                self.lemma_lead_is_least(p as int);
            }
        }
        if list.contains(position) {
            let i = choose|i: int| 0 <= i < list.len() && list[i] == position;
            if i < a.len() {
                assert(a[a.len() - 1 - i] == position);
                assert(a.contains(position));
            } else {
                assert(b[i - a.len()] == position);
                assert(b.contains(position));
            }
        }
        if position < ws.len() && ws[position as int].doc == doc {
            if position < k {
                assert(a.contains(position));
                let i = choose|i: int| 0 <= i < a.len() && a[i] == position;
                assert(list[a.len() - 1 - i] == position);
            } else {
                assert(b.contains(position));
                let i = choose|i: int| 0 <= i < b.len() && b[i] == position;
                assert(list[a.len() + i] == position);
            }
        }
        top_list_is_least_document(q, ws, 0);
        assert forall|i: int, j: int| 0 <= i < j < list.len() implies list[i] != list[j] by {
            if j < a.len() {
                assert(list[i] == a[a.len() - 1 - i] && list[j] == a[a.len() - 1 - j]);
            } else if i >= a.len() {
                assert(list[i] == b[i - a.len()] && list[j] == b[j - a.len()]);
            } else {
                assert(list[i] == a[a.len() - 1 - i] && list[j] == b[j - a.len()]);
                assert(b.contains(list[j]));
            }
        }
    }
}

impl<S: BlockScorer> DisjunctionDISIApproximation<S> {
    /// Tells the clause that was supplied at position `i` to look ahead to `target`, and returns
    /// the last document of the block that `target` is in. No clause moves.
    ///
    /// # Errors
    ///
    /// Whatever reading the scores of the clause fails with.
    pub fn advance_shallow(&mut self, i: usize, target: i32) -> (r: Result<i32, LuceneError>)
        requires
            old(self).inv(),
            i < old(self).clauses().len(),
        ensures
            final(self).inv(),
            final(self).view() == old(self).view(),
            final(self).infallible() == old(self).infallible(),
            final(self).supplied_order() == old(self).supplied_order(),
            final(self).num_others() == old(self).num_others(),
            final(self).queue() == old(self).queue(),
            final(self).reported_cost() == old(self).reported_cost(),
            ({
                let p = old(self).supplied_order()[i as int] as int;
                let before = old(self).clauses()[p];
                let after = final(self).clauses()[p];
                &&& final(self).clauses() == old(self).clauses().update(
                    p,
                    DisiWrapper { scorer: after.scorer, ..before },
                )
                &&& looked_ahead(before.scorer, after.scorer, target, r)
            }),
    {
        let position: usize = self.original_order[i];
        let ghost ws0 = self.wrappers@;
        assert(self.wrappers[position as int].inv());
        let r = self.wrappers[position].scorer.advance_shallow(target);
        proof {
            let ws = self.wrappers@;
            assert forall|k: int| 0 <= k < ws.len() implies (#[trigger] ws[k]).same_clause(
                &ws0[k],
            ) by {
                if k == position {
                    assert(ws[k].scorer.view() == ws0[k].scorer.view());
                }
            }
            assert(same_docs(ws0, ws));
            lemma_same_union(ws0, ws);
            old(self).lemma_same_infallible(self);
            old(self).lemma_unmoved(self);
        }
        r
    }
}

} // verus!
