//! Iteration over the matches of several iterators, in the order of their
//! positions.

use std::sync::Arc;

use vstd::multiset::Multiset;
use vstd::prelude::*;
use vstd::string::*;

use crate::error::LuceneError;
use crate::search::matches::{FoundMatch, MatchView, MatchesIterator, Span};
use crate::util::bytes::copy_of;
use crate::util::heap::{
    heap_root_is_least, is_heap, lesser_child, parent, refines, sift_down, sift_down_keeps_all,
    sift_down_restores_heap, sift_up, sift_up_keeps_all, sift_up_restores_heap, swapped,
};
use crate::util::slots::{
    all_comparable, all_filled, all_infallible, down_heap, items, order_of, up_heap, SlotOrder,
};
use crate::util::text::same_text;

verus! {

/// Whether `a` does not come after `b`: by positions, or by offsets where neither
/// has positions.
pub open spec fn span_before(a: Span, b: Span) -> bool {
    if a.start == -1 && b.start == -1 {
        a.start_offset < b.start_offset || (a.start_offset == b.start_offset && a.end_offset
            <= b.end_offset)
    } else {
        a.start < b.start || (a.start == b.start && a.end <= b.end)
    }
}

/// Whether the match `a` does not come after the match `b`.
pub open spec fn match_before<Q, S>(a: FoundMatch<Q, S>, b: FoundMatch<Q, S>) -> bool {
    span_before(a.span, b.span)
}

/// The order of iterators by their current matches.
pub open spec fn by_span<Q, S>() -> spec_fn(MatchView<Q, S>, MatchView<Q, S>) -> bool {
    |a: MatchView<Q, S>, b: MatchView<Q, S>| match_before(a.current->0, b.current->0)
}

/// Orders iterators by their current matches.
pub struct BySpan;

impl<M: MatchesIterator> SlotOrder<M> for BySpan {
    open spec fn before(a: M, b: M) -> bool {
        match_before(a.view().current->0, b.view().current->0)
    }

    open spec fn comparable(a: M) -> bool {
        a.inv() && a.view().current is Some && !a.view().ended
    }

    open spec fn infallible(a: M) -> bool {
        a.infallible()
    }

    fn comes_before(a: &M, b: &M) -> (r: Result<bool, LuceneError>) {
        if a.start_position() == -1 && b.start_position() == -1 {
            let a_start: i32 = a.start_offset()?;
            let a_end: i32 = a.end_offset()?;
            let b_start: i32 = b.start_offset()?;
            let b_end: i32 = b.end_offset()?;
            return Ok(a_start < b_start || (a_start == b_start && a_end <= b_end));
        }
        Ok(
            a.start_position() < b.start_position() || (a.start_position() == b.start_position()
                && a.end_position() <= b.end_position()),
        )
    }
}

/// The states of iterators.
pub open spec fn views<M: MatchesIterator>(ms: Seq<M>) -> Seq<MatchView<M::Query, M::Sub>> {
    ms.map_values(|m: M| m.view())
}

/// Sifting iterators sifts their states.
proof fn lemma_views_sift_down<M: MatchesIterator>(s: Seq<M>, i: int)
    requires
        0 <= i,
    ensures
        views(sift_down(s, order_of::<M, BySpan>(), i)) == sift_down(views(s), by_span(), i),
    decreases s.len() - i,
{
    let lt = order_of::<M, BySpan>();
    let c = lesser_child(s, lt, i);
    assert(c == lesser_child(views(s), by_span(), i));
    if 2 * i + 1 < s.len() && lt(s[c], s[i]) {
        lemma_views_sift_down(swapped(s, i, c), c);
        assert(views(swapped(s, i, c)) =~= swapped(views(s), i, c));
    }
}

/// Sifting iterators sifts their states.
proof fn lemma_views_sift_up<M: MatchesIterator>(s: Seq<M>, i: int)
    requires
        0 <= i < s.len(),
    ensures
        views(sift_up(s, order_of::<M, BySpan>(), i)) == sift_up(views(s), by_span(), i),
    decreases i,
{
    let lt = order_of::<M, BySpan>();
    if i > 0 && lt(s[i], s[parent(i)]) {
        lemma_views_sift_up(swapped(s, i, parent(i)), parent(i));
        assert(views(swapped(s, i, parent(i))) =~= swapped(views(s), i, parent(i)));
    }
}

/// The matches of an iterator that has started, the current one included.
pub open spec fn spans_of<Q, S>(v: MatchView<Q, S>) -> Multiset<FoundMatch<Q, S>> {
    v.rest.to_multiset().insert(v.current->0)
}

/// The matches of all iterators.
pub open spec fn all_spans<Q, S>(heap: Seq<MatchView<Q, S>>) -> Multiset<FoundMatch<Q, S>>
    decreases heap.len(),
{
    if heap.len() == 0 {
        Multiset::empty()
    } else {
        all_spans(heap.drop_last()).add(spans_of(heap.last()))
    }
}

/// The queue without its first iterator.
pub open spec fn without_top<Q, S>(heap: Seq<MatchView<Q, S>>) -> Seq<MatchView<Q, S>> {
    if heap.len() <= 1 {
        Seq::empty()
    } else {
        sift_down(heap.update(0, heap.last()).drop_last(), by_span(), 0)
    }
}

/// The queue after its first iterator has moved to its next match.
pub open spec fn after_top<Q, S>(heap: Seq<MatchView<Q, S>>) -> Seq<MatchView<Q, S>> {
    if heap[0].rest.len() == 0 {
        sift_down(without_top(heap), by_span(), 0)
    } else {
        sift_down(heap.update(0, heap[0].next()), by_span(), 0)
    }
}

/// The first `n` matches that the queue gives.
pub open spec fn upcoming<Q, S>(heap: Seq<MatchView<Q, S>>, n: nat) -> Seq<FoundMatch<Q, S>>
    decreases n,
{
    if heap.len() == 0 || n == 0 {
        Seq::empty()
    } else {
        seq![heap[0].current->0] + upcoming(after_top(heap), (n - 1) as nat)
    }
}

/// The matches that the queue gives.
pub open spec fn merged<Q, S>(heap: Seq<MatchView<Q, S>>) -> Seq<FoundMatch<Q, S>> {
    upcoming(heap, all_spans(heap).len())
}

/// The queue of the iterators that have a match, each moved to its first one.
pub open spec fn queue_of<Q, S>(vs: Seq<MatchView<Q, S>>) -> Seq<MatchView<Q, S>>
    decreases vs.len(),
{
    if vs.len() == 0 {
        Seq::empty()
    } else {
        let before = queue_of(vs.drop_last());
        if vs.last().rest.len() == 0 {
            before
        } else {
            sift_up(before.push(vs.last().next()), by_span(), before.len() as int)
        }
    }
}

proof fn lemma_all_spans_update<Q, S>(heap: Seq<MatchView<Q, S>>, i: int, v: MatchView<Q, S>)
    requires
        0 <= i < heap.len(),
    ensures
        all_spans(heap.update(i, v)).add(spans_of(heap[i])) == all_spans(heap).add(spans_of(v)),
    decreases heap.len(),
{
    let next = heap.update(i, v);
    let a = all_spans(next.drop_last());
    let b = all_spans(heap.drop_last());
    if i == heap.len() - 1 {
        assert(next.drop_last() =~= heap.drop_last());
    } else {
        assert(next.drop_last() =~= heap.drop_last().update(i, v));
        lemma_all_spans_update(heap.drop_last(), i, v);
        assert(a.add(spans_of(heap[i])) == b.add(spans_of(v)));
    }
    assert forall|x: FoundMatch<Q, S>| #[trigger]
        all_spans(next).add(spans_of(heap[i])).count(x) == all_spans(heap).add(spans_of(v)).count(
            x,
        ) by {
        assert(all_spans(next).count(x) == a.count(x) + spans_of(next.last()).count(x));
        assert(all_spans(heap).count(x) == b.count(x) + spans_of(heap.last()).count(x));
        if i != heap.len() - 1 {
            assert(a.add(spans_of(heap[i])).count(x) == b.add(spans_of(v)).count(x));
        }
    }
    assert(all_spans(next).add(spans_of(heap[i])) =~= all_spans(heap).add(spans_of(v)));
}

proof fn lemma_all_spans_swapped<Q, S>(heap: Seq<MatchView<Q, S>>, i: int, j: int)
    requires
        0 <= i < heap.len(),
        0 <= j < heap.len(),
    ensures
        all_spans(swapped(heap, i, j)) == all_spans(heap),
{
    let a = heap.update(i, heap[j]);
    lemma_all_spans_update(heap, i, heap[j]);
    lemma_all_spans_update(a, j, heap[i]);
    if i == j {
        assert(swapped(heap, i, j) =~= heap);
    } else {
        let b = swapped(heap, i, j);
        assert forall|x: FoundMatch<Q, S>| #[trigger]
            all_spans(b).count(x) == all_spans(heap).count(x) by {
            assert(all_spans(a).add(spans_of(heap[i])).count(x) == all_spans(heap).add(
                spans_of(heap[j]),
            ).count(x));
            assert(all_spans(b).add(spans_of(a[j])).count(x) == all_spans(a).add(
                spans_of(heap[i]),
            ).count(x));
        }
        assert(all_spans(b) =~= all_spans(heap));
    }
}

proof fn lemma_all_spans_sift_down<Q, S>(heap: Seq<MatchView<Q, S>>, i: int)
    requires
        0 <= i,
    ensures
        all_spans(sift_down(heap, by_span(), i)) == all_spans(heap),
        sift_down(heap, by_span(), i).len() == heap.len(),
    decreases heap.len() - i,
{
    let c = lesser_child(heap, by_span(), i);
    if 2 * i + 1 < heap.len() && by_span()(heap[c], heap[i]) {
        lemma_all_spans_swapped(heap, i, c);
        lemma_all_spans_sift_down(swapped(heap, i, c), c);
    }
}

proof fn lemma_all_spans_sift_up<Q, S>(heap: Seq<MatchView<Q, S>>, i: int)
    requires
        0 <= i < heap.len(),
    ensures
        all_spans(sift_up(heap, by_span(), i)) == all_spans(heap),
        sift_up(heap, by_span(), i).len() == heap.len(),
    decreases i,
{
    if i > 0 && by_span()(heap[i], heap[parent(i)]) {
        lemma_all_spans_swapped(heap, i, parent(i));
        lemma_all_spans_sift_up(swapped(heap, i, parent(i)), parent(i));
    }
}

/// Taking the first match leaves the others.
proof fn lemma_after_top<Q, S>(heap: Seq<MatchView<Q, S>>)
    requires
        heap.len() > 0,
        forall|i: int| 0 <= i < heap.len() ==> (#[trigger] heap[i]).current is Some,
    ensures
        all_spans(after_top(heap)).insert(heap[0].current->0) == all_spans(heap),
        all_spans(after_top(heap)).len() + 1 == all_spans(heap).len(),
{
    broadcast use vstd::seq_lib::group_to_multiset_ensures;
    broadcast use vstd::multiset::group_multiset_axioms;

    let top = heap[0];
    let head = top.current->0;
    if top.rest.len() == 0 {
        let rest = if heap.len() == 1 {
            Seq::<MatchView<Q, S>>::empty()
        } else {
            heap.update(0, heap.last()).drop_last()
        };
        assert(top.rest =~= Seq::<FoundMatch<Q, S>>::empty());
        assert(spans_of(top) =~= Multiset::<FoundMatch<Q, S>>::empty().insert(head));
        if heap.len() == 1 {
            assert(heap.drop_last() =~= Seq::<MatchView<Q, S>>::empty());
            assert(all_spans(rest).insert(head) =~= all_spans(heap));
            lemma_all_spans_sift_down(rest, 0);
        } else {
            let moved = heap.update(0, heap.last());
            lemma_all_spans_update(heap, 0, heap.last());
            assert(all_spans(moved) == all_spans(rest).add(spans_of(heap.last())));
            assert(all_spans(rest).insert(head) =~= all_spans(heap)) by {
                assert forall|x: FoundMatch<Q, S>| #[trigger]
                    all_spans(rest).insert(head).count(x) == all_spans(heap).count(x) by {
                    assert(all_spans(moved).add(spans_of(top)).count(x) == all_spans(heap).add(
                        spans_of(heap.last()),
                    ).count(x));
                }
            }
            lemma_all_spans_sift_down(rest, 0);
            lemma_all_spans_sift_down(without_top(heap), 0);
        }
    } else {
        let moved = top.next();
        lemma_all_spans_update(heap, 0, moved);
        assert(top.rest =~= seq![top.rest[0]] + top.rest.drop_first());
        assert(spans_of(top) =~= spans_of(moved).insert(head)) by {
            lemma_first_to_multiset(top.rest);
        }
        let next = heap.update(0, moved);
        assert(all_spans(next).insert(head) =~= all_spans(heap)) by {
            assert forall|x: FoundMatch<Q, S>| #[trigger]
                all_spans(next).insert(head).count(x) == all_spans(heap).count(x) by {
                assert(all_spans(next).add(spans_of(top)).count(x) == all_spans(heap).add(
                    spans_of(moved),
                ).count(x));
            }
        }
        lemma_all_spans_sift_down(next, 0);
    }
    assert(all_spans(after_top(heap)).insert(head).len() == all_spans(after_top(heap)).len() + 1);
}

proof fn lemma_first_to_multiset<Q, S>(s: Seq<FoundMatch<Q, S>>)
    requires
        s.len() > 0,
    ensures
        s.to_multiset() == s.drop_first().to_multiset().insert(s[0]),
{
    broadcast use vstd::seq_lib::group_to_multiset_ensures;

    vstd::seq_lib::to_multiset_remove(s, 0);
    assert(s.remove(0) =~= s.drop_first());
    assert(s.contains(s[0]));
    assert(s.to_multiset() =~= s.drop_first().to_multiset().insert(s[0]));
}

proof fn lemma_spans_positive<Q, S>(heap: Seq<MatchView<Q, S>>)
    requires
        heap.len() > 0,
    ensures
        all_spans(heap).len() > 0,
{
    broadcast use vstd::multiset::group_multiset_axioms;

    let last = heap.last();
    assert(spans_of(last).len() == last.rest.to_multiset().len() + 1);
    assert(all_spans(heap).len() == all_spans(heap.drop_last()).len() + spans_of(last).len());
}

/// The first match that the queue gives is the current one of its first iterator.
proof fn lemma_merged_step<Q, S>(heap: Seq<MatchView<Q, S>>)
    requires
        heap.len() > 0,
        forall|i: int| 0 <= i < heap.len() ==> (#[trigger] heap[i]).current is Some,
    ensures
        merged(heap) == seq![heap[0].current->0] + merged(after_top(heap)),
{
    lemma_spans_positive(heap);
    lemma_after_top(heap);
}

/// Iterates over the matches of several iterators, in the order of their
/// positions.
pub struct DisjunctionMatchesIterator<M: MatchesIterator> {
    queue: Vec<Option<M>>,
    started: bool,
}

impl<M: MatchesIterator> DisjunctionMatchesIterator<M> {
    /// The states of the iterators, in the order of the queue.
    closed spec fn heap(&self) -> Seq<MatchView<M::Query, M::Sub>> {
        views(items(self.queue@))
    }

    /// Creates an iterator over the matches of all given iterators.
    ///
    /// # Errors
    ///
    /// Whatever reading the first matches fails with.
    pub fn new(matches: Vec<M>) -> (r: Result<Self, LuceneError>)
        requires
            2 * matches@.len() <= usize::MAX,
            forall|i: int|
                0 <= i < matches@.len() ==> (#[trigger] matches@[i]).inv()
                    && !matches@[i].view().ended,
        ensures
            (forall|i: int| 0 <= i < matches@.len() ==> (#[trigger] matches@[i]).infallible())
                ==> r is Ok,
            r matches Ok(it) ==> {
                &&& it.inv()
                &&& it.view() == (MatchView {
                    current: None,
                    rest: merged(queue_of(views(matches@))),
                    ended: false,
                })
                &&& (forall|i: int| 0 <= i < matches@.len() ==> (
                #[trigger] matches@[i]).infallible()) ==> it.infallible()
            },
    {
        let ghost all = matches@;
        let ghost safe = forall|i: int|
            0 <= i < all.len() ==> (#[trigger] all[i]).infallible();
        let mut queue: Vec<Option<M>> = Vec::with_capacity(matches.len());
        let ghost mut k: int = 0;
        proof {
            assert(views(items(queue@)) =~= queue_of(views(all.take(0))));
        }
        for mi in it: matches
            invariant
                it.seq() == all,
                k == it.index(),
                2 * all.len() <= usize::MAX,
                forall|i: int|
                    0 <= i < all.len() ==> (#[trigger] all[i]).inv() && !all[i].view().ended,
                safe == forall|i: int| 0 <= i < all.len() ==> (#[trigger] all[i]).infallible(),
                queue@.len() <= k,
                all_filled(queue@),
                all_comparable::<M, BySpan>(items(queue@)),
                safe ==> all_infallible::<M, BySpan>(items(queue@)),
                views(items(queue@)) == queue_of(views(all.take(k))),
        {
            let mut mi = mi;
            let ghost v = mi.view();
            let ghost q0 = items(queue@);
            proof {
                assert(mi == all[k]);
                assert(views(all.take(k + 1)).drop_last() =~= views(all.take(k)));
                assert(views(all.take(k + 1)).last() == v);
            }
            if mi.next()? {
                let n: usize = queue.len();
                queue.push(Some(mi));
                let ghost q1 = items(queue@);
                proof {
                    assert(q1 =~= q0.push(mi));
                    assert(views(q1) =~= views(q0).push(v.next()));
                    assert forall|j: int| 0 <= j < q1.len() implies <BySpan as SlotOrder<
                        M,
                    >>::comparable(#[trigger] q1[j]) && (safe ==> <BySpan as SlotOrder<
                        M,
                    >>::infallible(q1[j])) by {
                        if j < q0.len() {
                            assert(<BySpan as SlotOrder<M>>::comparable(q0[j]));
                            assert(safe ==> <BySpan as SlotOrder<M>>::infallible(q0[j]));
                        }
                    }
                    lemma_views_sift_up(q1, n as int);
                }
                up_heap::<M, BySpan>(&mut queue, n)?;
                proof {
                    lemma_sift_up_all::<M>(q1, n as int);
                }
            }
            proof {
                k = k + 1;
            }
        }
        assert(all.take(k) =~= all);
        Ok(DisjunctionMatchesIterator { queue, started: false })
    }
}

/// Moving one iterator keeps the others.
proof fn lemma_items_kept<M: MatchesIterator>(q0: Seq<M>, q1: Seq<M>)
    requires
        q0.len() == q1.len(),
        q0.len() > 0,
        forall|j: int| 0 < j < q0.len() ==> q1[j] == #[trigger] q0[j],
        all_comparable::<M, BySpan>(q0),
        <BySpan as SlotOrder<M>>::comparable(q1[0]),
        q0[0].infallible() ==> q1[0].infallible(),
    ensures
        all_comparable::<M, BySpan>(q1),
        all_infallible::<M, BySpan>(q0) ==> all_infallible::<M, BySpan>(q1),
{
    assert forall|j: int| 0 <= j < q1.len() implies <BySpan as SlotOrder<M>>::comparable(
        #[trigger] q1[j],
    ) by {
        assert(<BySpan as SlotOrder<M>>::comparable(q0[j]));
    }
    if all_infallible::<M, BySpan>(q0) {
        assert forall|j: int| 0 <= j < q1.len() implies <BySpan as SlotOrder<M>>::infallible(
            #[trigger] q1[j],
        ) by {
            assert(<BySpan as SlotOrder<M>>::infallible(q0[j]));
        }
    }
}

/// Removing the first iterator keeps the others.
proof fn lemma_popped_kept<M: MatchesIterator>(q0: Seq<M>, q1: Seq<M>)
    requires
        q0.len() > 1,
        q1 == q0.update(0, q0.last()).drop_last(),
        all_comparable::<M, BySpan>(q0),
    ensures
        all_comparable::<M, BySpan>(q1),
        all_infallible::<M, BySpan>(q0) ==> all_infallible::<M, BySpan>(q1),
{
    assert forall|j: int| 0 <= j < q1.len() implies <BySpan as SlotOrder<M>>::comparable(
        #[trigger] q1[j],
    ) by {
        let m = if j == 0 {
            q0.len() - 1
        } else {
            j
        };
        assert(<BySpan as SlotOrder<M>>::comparable(q0[m]));
    }
    if all_infallible::<M, BySpan>(q0) {
        assert forall|j: int| 0 <= j < q1.len() implies <BySpan as SlotOrder<M>>::infallible(
            #[trigger] q1[j],
        ) by {
            let m = if j == 0 {
                q0.len() - 1
            } else {
                j
            };
            assert(<BySpan as SlotOrder<M>>::infallible(q0[m]));
        }
    }
}

/// Sifting keeps the iterators.
proof fn lemma_sift_up_all<M: MatchesIterator>(s: Seq<M>, i: int)
    requires
        0 <= i < s.len(),
    ensures
        sift_up(s, order_of::<M, BySpan>(), i).len() == s.len(),
        all_infallible::<M, BySpan>(s) ==> all_infallible::<M, BySpan>(
            sift_up(s, order_of::<M, BySpan>(), i),
        ),
    decreases i,
{
    if i > 0 && order_of::<M, BySpan>()(s[i], s[parent(i)]) {
        let t = swapped(s, i, parent(i));
        if all_infallible::<M, BySpan>(s) {
            lemma_swapped_infallible::<M>(s, i, parent(i));
        }
        lemma_sift_up_all::<M>(t, parent(i));
    }
}

proof fn lemma_swapped_infallible<M: MatchesIterator>(s: Seq<M>, i: int, j: int)
    requires
        0 <= i < s.len(),
        0 <= j < s.len(),
    ensures
        all_infallible::<M, BySpan>(swapped(s, i, j)) == all_infallible::<M, BySpan>(s),
{
    let t = swapped(s, i, j);
    assert forall|k: int| 0 <= k < s.len() implies t[k] == s[if k == i {
        j
    } else if k == j {
        i
    } else {
        k
    }] by {
    }
    if all_infallible::<M, BySpan>(s) {
        assert forall|k: int| 0 <= k < t.len() implies <BySpan as SlotOrder<M>>::infallible(
            #[trigger] t[k],
        ) by {
            let m = if k == i {
                j
            } else if k == j {
                i
            } else {
                k
            };
            assert(t[k] == s[m]);
        }
    }
    if all_infallible::<M, BySpan>(t) {
        assert forall|k: int| 0 <= k < s.len() implies <BySpan as SlotOrder<M>>::infallible(
            #[trigger] s[k],
        ) by {
            let m = if k == i {
                j
            } else if k == j {
                i
            } else {
                k
            };
            assert(t[m] == s[k]);
        }
    }
}

/// Sifting keeps the iterators.
proof fn lemma_sift_down_all<M: MatchesIterator>(s: Seq<M>, i: int)
    requires
        0 <= i,
    ensures
        sift_down(s, order_of::<M, BySpan>(), i).len() == s.len(),
        all_infallible::<M, BySpan>(sift_down(s, order_of::<M, BySpan>(), i)) == all_infallible::<
            M,
            BySpan,
        >(s),
    decreases s.len() - i,
{
    let lt = order_of::<M, BySpan>();
    let c = lesser_child(s, lt, i);
    if 2 * i + 1 < s.len() && lt(s[c], s[i]) {
        lemma_swapped_infallible::<M>(s, i, c);
        lemma_sift_down_all::<M>(swapped(s, i, c), c);
    }
}

impl<M: MatchesIterator> MatchesIterator for DisjunctionMatchesIterator<M> {
    type Query = M::Query;

    type Sub = M::Sub;

    closed spec fn view(&self) -> MatchView<M::Query, M::Sub> {
        let heap = self.heap();
        if !self.started {
            MatchView { current: None, rest: merged(heap), ended: false }
        } else if heap.len() > 0 {
            MatchView { current: heap[0].current, rest: merged(after_top(heap)), ended: false }
        } else {
            MatchView { current: None, rest: Seq::empty(), ended: true }
        }
    }

    closed spec fn inv(&self) -> bool {
        &&& all_filled(self.queue@)
        &&& all_comparable::<M, BySpan>(items(self.queue@))
        &&& 2 * self.queue@.len() <= usize::MAX
    }

    closed spec fn infallible(&self) -> bool {
        all_infallible::<M, BySpan>(items(self.queue@))
    }

    fn next(&mut self) -> (r: Result<bool, LuceneError>) {
        let ghost heap0 = self.heap();
        let ghost q0 = items(self.queue@);
        proof {
            assert forall|i: int| 0 <= i < heap0.len() implies (
            #[trigger] heap0[i]).current is Some by {
                assert(<BySpan as SlotOrder<M>>::comparable(q0[i]));
            }
            if heap0.len() > 0 {
                lemma_merged_step(heap0);
                assert(merged(heap0).drop_first() =~= merged(after_top(heap0)));
            } else {
                assert(merged(heap0) =~= Seq::<FoundMatch<M::Query, M::Sub>>::empty());
            }
        }
        if !self.started {
            self.started = true;
            return Ok(self.queue.len() > 0);
        }
        assert(<BySpan as SlotOrder<M>>::comparable(q0[0]));
        assert(self.infallible() ==> <BySpan as SlotOrder<M>>::infallible(q0[0]));
        let mut top: M = self.queue[0].take().unwrap();
        let ghost v = top.view();
        if top.next()? {
            self.queue[0] = Some(top);
            proof {
                let q1 = items(self.queue@);
                assert(q1 =~= q0.update(0, top));
                assert(views(q1) =~= heap0.update(0, v.next()));
                lemma_items_kept(q0, q1);
                lemma_views_sift_down(q1, 0);
                lemma_sift_down_all::<M>(q1, 0);
            }
            down_heap::<M, BySpan>(&mut self.queue, 0)?;
        } else {
            let last = self.queue.pop().unwrap();
            if self.queue.len() > 0 {
                self.queue[0] = last;
                let ghost q1 = items(self.queue@);
                proof {
                    assert(q1 =~= q0.update(0, q0.last()).drop_last());
                    assert(views(q1) =~= heap0.update(0, heap0.last()).drop_last());
                    lemma_popped_kept(q0, q1);
                    lemma_views_sift_down(q1, 0);
                    lemma_sift_down_all::<M>(q1, 0);
                }
                down_heap::<M, BySpan>(&mut self.queue, 0)?;
                proof {
                    let q2 = items(self.queue@);
                    lemma_views_sift_down(q2, 0);
                    lemma_sift_down_all::<M>(q2, 0);
                }
                down_heap::<M, BySpan>(&mut self.queue, 0)?;
            } else {
                assert(self.heap() =~= Seq::<MatchView<M::Query, M::Sub>>::empty());
            }
        }
        proof {
            let heap = self.heap();
            assert(heap == after_top(heap0));
            if heap.len() > 0 {
                assert forall|i: int| 0 <= i < heap.len() implies (
                #[trigger] heap[i]).current is Some by {
                    assert(<BySpan as SlotOrder<M>>::comparable(items(self.queue@)[i]));
                }
                lemma_merged_step(heap);
                assert(merged(heap).drop_first() =~= merged(after_top(heap)));
            } else {
                assert(merged(heap) =~= Seq::<FoundMatch<M::Query, M::Sub>>::empty());
            }
        }
        Ok(self.queue.len() > 0)
    }

    fn start_position(&self) -> (r: i32) {
        assert(<BySpan as SlotOrder<M>>::comparable(items(self.queue@)[0]));
        match &self.queue[0] {
            Some(top) => top.start_position(),
            None => -1,
        }
    }

    fn end_position(&self) -> (r: i32) {
        assert(<BySpan as SlotOrder<M>>::comparable(items(self.queue@)[0]));
        match &self.queue[0] {
            Some(top) => top.end_position(),
            None => -1,
        }
    }

    fn start_offset(&self) -> (r: Result<i32, LuceneError>) {
        assert(<BySpan as SlotOrder<M>>::comparable(items(self.queue@)[0]));
        assert(self.infallible() ==> <BySpan as SlotOrder<M>>::infallible(items(self.queue@)[0]));
        match &self.queue[0] {
            Some(top) => top.start_offset(),
            None => Ok(-1),
        }
    }

    fn end_offset(&self) -> (r: Result<i32, LuceneError>) {
        assert(<BySpan as SlotOrder<M>>::comparable(items(self.queue@)[0]));
        assert(self.infallible() ==> <BySpan as SlotOrder<M>>::infallible(items(self.queue@)[0]));
        match &self.queue[0] {
            Some(top) => top.end_offset(),
            None => Ok(-1),
        }
    }

    fn get_sub_matches(&self) -> (r: Result<Option<M::Sub>, LuceneError>) {
        assert(<BySpan as SlotOrder<M>>::comparable(items(self.queue@)[0]));
        assert(self.infallible() ==> <BySpan as SlotOrder<M>>::infallible(items(self.queue@)[0]));
        match &self.queue[0] {
            Some(top) => top.get_sub_matches(),
            None => Ok(None),
        }
    }

    fn get_query(&self) -> (r: Arc<M::Query>) {
        assert(<BySpan as SlotOrder<M>>::comparable(items(self.queue@)[0]));
        let top: Option<&M> = self.queue[0].as_ref();
        top.unwrap().get_query()
    }
}

/// The matches are in order.
pub open spec fn spans_sorted<Q, S>(s: Seq<FoundMatch<Q, S>>) -> bool {
    forall|i: int, j: int|
        0 <= i <= j < s.len() ==> match_before(#[trigger] s[i], #[trigger] s[j])
}

/// The iterator is on a match that is not before `x`, and its matches are in
/// order.
spec fn ordered_from<Q, S>(x: Option<FoundMatch<Q, S>>) -> spec_fn(MatchView<Q, S>) -> bool {
    |v: MatchView<Q, S>|
        {
            &&& v.current is Some
            &&& x matches Some(x) ==> match_before(x, v.current->0)
            &&& spans_sorted(seq![v.current->0] + v.rest)
        }
}

proof fn lemma_span_order<Q, S>()
    ensures
        refines(by_span::<Q, S>(), by_span::<Q, S>()),
        forall|a: MatchView<Q, S>| #[trigger] by_span()(a, a),
{
}

/// A queue in order stays in order.
proof fn lemma_after_top_ordered<Q, S>(heap: Seq<MatchView<Q, S>>)
    requires
        heap.len() > 0,
        is_heap(heap, by_span()),
        forall|i: int| 0 <= i < heap.len() ==> ordered_from(None)(#[trigger] heap[i]),
    ensures
        is_heap(after_top(heap), by_span()),
        forall|i: int|
            0 <= i < after_top(heap).len() ==> ordered_from(heap[0].current)(
                #[trigger] after_top(heap)[i],
            ),
{
    lemma_span_order::<Q, S>();
    let lt = by_span();
    let p = ordered_from(heap[0].current);
    let x = heap[0].current->0;
    assert forall|i: int| 0 <= i < heap.len() implies p(#[trigger] heap[i]) by {
        heap_root_is_least(heap, lt, i);
        assert(ordered_from(None)(heap[i]));
    }
    if heap[0].rest.len() == 0 {
        if heap.len() > 1 {
            let rest = heap.update(0, heap.last()).drop_last();
            assert forall|c: int| #![trigger rest[c]] 0 < c < rest.len() && parent(c)
                >= 1 implies lt(rest[parent(c)], rest[c]) by {
                assert(lt(heap[parent(c)], heap[c]));
            }
            sift_down_restores_heap(rest, lt, lt);
            assert forall|k: int| 0 <= k < rest.len() implies p(#[trigger] rest[k]) by {
                let m = if k == 0 {
                    heap.len() - 1
                } else {
                    k
                };
                assert(p(heap[m]));
            }
            sift_down_keeps_all(rest, lt, 0, p);
            let popped = without_top(heap);
            sift_down_restores_heap(popped, lt, lt);
            sift_down_keeps_all(popped, lt, 0, p);
        }
    } else {
        let moved = heap[0].next();
        let next = heap.update(0, moved);
        let all = seq![x] + heap[0].rest;
        assert(p(moved)) by {
            assert(all[0] == x && all[1] == heap[0].rest[0]);
            assert(match_before(all[0], all[1]));
            let s = seq![moved.current->0] + moved.rest;
            assert(s =~= heap[0].rest);
            assert forall|i: int, j: int| 0 <= i <= j < s.len() implies match_before(
                #[trigger] s[i],
                #[trigger] s[j],
            ) by {
                assert(s[i] == all[i + 1] && s[j] == all[j + 1]);
            }
        }
        assert forall|c: int| #![trigger next[c]] 0 < c < next.len() && parent(c) >= 1 implies lt(
            next[parent(c)],
            next[c],
        ) by {
            assert(lt(heap[parent(c)], heap[c]));
        }
        sift_down_restores_heap(next, lt, lt);
        assert forall|k: int| 0 <= k < next.len() implies p(#[trigger] next[k]) by {
            assert(p(heap[k]));
        }
        sift_down_keeps_all(next, lt, 0, p);
    }
}

proof fn lemma_upcoming_sorted<Q, S>(heap: Seq<MatchView<Q, S>>, n: nat, x: Option<FoundMatch<Q, S>>)
    requires
        is_heap(heap, by_span()),
        forall|i: int| 0 <= i < heap.len() ==> ordered_from(x)(#[trigger] heap[i]),
    ensures
        spans_sorted(upcoming(heap, n)),
        x is Some ==> forall|i: int|
            0 <= i < upcoming(heap, n).len() ==> match_before(x->0, #[trigger] upcoming(heap, n)[i]),
    decreases n,
{
    if heap.len() > 0 && n > 0 {
        assert forall|i: int| 0 <= i < heap.len() implies ordered_from(None)(
            #[trigger] heap[i],
        ) by {
            assert(ordered_from(x)(heap[i]));
        }
        assert(ordered_from(x)(heap[0]));
        lemma_after_top_ordered(heap);
        lemma_upcoming_sorted(after_top(heap), (n - 1) as nat, heap[0].current);
        let head = heap[0].current->0;
        let tail = upcoming(after_top(heap), (n - 1) as nat);
        let all = upcoming(heap, n);
        assert(all =~= seq![head] + tail);
        assert forall|i: int, j: int| 0 <= i <= j < all.len() implies match_before(
            #[trigger] all[i],
            #[trigger] all[j],
        ) by {
            if i > 0 {
                assert(all[i] == tail[i - 1] && all[j] == tail[j - 1]);
            } else if j > 0 {
                assert(all[j] == tail[j - 1]);
            }
        }
        if x is Some {
            assert forall|i: int| 0 <= i < all.len() implies match_before(
                x->0,
                #[trigger] all[i],
            ) by {
                if i > 0 {
                    assert(all[i] == tail[i - 1]);
                    assert(match_before(head, tail[i - 1]));
                }
            }
        }
    }
}

proof fn lemma_queue_ordered<Q, S>(vs: Seq<MatchView<Q, S>>)
    requires
        forall|i: int| 0 <= i < vs.len() ==> spans_sorted((#[trigger] vs[i]).rest),
    ensures
        is_heap(queue_of(vs), by_span()),
        forall|i: int| 0 <= i < queue_of(vs).len() ==> ordered_from(None)(#[trigger] queue_of(vs)[i]),
    decreases vs.len(),
{
    if vs.len() > 0 {
        let prefix = vs.drop_last();
        assert forall|i: int| 0 <= i < prefix.len() implies spans_sorted(
            (#[trigger] prefix[i]).rest,
        ) by {
            assert(prefix[i] == vs[i]);
        }
        lemma_queue_ordered(prefix);
        let before = queue_of(prefix);
        let v = vs.last();
        if v.rest.len() > 0 {
            lemma_span_order::<Q, S>();
            let next = v.next();
            assert(seq![next.current->0] + next.rest =~= v.rest);
            assert(spans_sorted(vs[vs.len() - 1].rest));
            sift_up_restores_heap(before, by_span(), by_span(), next);
            let s = before.push(next);
            assert forall|k: int| 0 <= k < s.len() implies ordered_from(None)(
                #[trigger] s[k],
            ) by {
                if k < before.len() {
                    assert(ordered_from(None)(before[k]));
                }
            }
            sift_up_keeps_all(s, by_span(), before.len() as int, ordered_from(None));
        }
    }
}

/// The matches of several iterators come in order, when those of each one do.
pub proof fn merged_matches_are_in_order<Q, S>(vs: Seq<MatchView<Q, S>>)
    requires
        forall|i: int| 0 <= i < vs.len() ==> spans_sorted((#[trigger] vs[i]).rest),
    ensures
        spans_sorted(merged(queue_of(vs))),
{
    lemma_queue_ordered(vs);
    lemma_upcoming_sorted(queue_of(vs), all_spans(queue_of(vs)).len(), None);
}

/// The matches that all iterators have left.
pub open spec fn all_rests<Q, S>(vs: Seq<MatchView<Q, S>>) -> Multiset<FoundMatch<Q, S>>
    decreases vs.len(),
{
    if vs.len() == 0 {
        Multiset::empty()
    } else {
        all_rests(vs.drop_last()).add(vs.last().rest.to_multiset())
    }
}

spec fn on_match<Q, S>() -> spec_fn(MatchView<Q, S>) -> bool {
    |v: MatchView<Q, S>| v.current is Some
}

proof fn lemma_upcoming_complete<Q, S>(heap: Seq<MatchView<Q, S>>)
    requires
        forall|i: int| 0 <= i < heap.len() ==> on_match()(#[trigger] heap[i]),
    ensures
        merged(heap).to_multiset() == all_spans(heap),
    decreases all_spans(heap).len(),
{
    broadcast use vstd::seq_lib::group_to_multiset_ensures;
    broadcast use vstd::multiset::group_multiset_axioms;

    if heap.len() > 0 {
        assert forall|i: int| 0 <= i < heap.len() implies (
        #[trigger] heap[i]).current is Some by {
            assert(on_match()(heap[i]));
        }
        lemma_merged_step(heap);
        lemma_after_top(heap);
        lemma_after_top_on_match(heap);
        lemma_upcoming_complete(after_top(heap));
        let all = merged(heap);
        lemma_first_to_multiset(all);
        assert(all.drop_first() =~= merged(after_top(heap)));
    } else {
        assert(merged(heap) =~= Seq::<FoundMatch<Q, S>>::empty());
        assert(merged(heap).to_multiset() =~= Multiset::<FoundMatch<Q, S>>::empty());
    }
}

proof fn lemma_after_top_on_match<Q, S>(heap: Seq<MatchView<Q, S>>)
    requires
        heap.len() > 0,
        forall|i: int| 0 <= i < heap.len() ==> on_match()(#[trigger] heap[i]),
    ensures
        forall|i: int|
            0 <= i < after_top(heap).len() ==> on_match()(#[trigger] after_top(heap)[i]),
{
    let lt = by_span();
    let p = on_match();
    if heap[0].rest.len() == 0 {
        if heap.len() > 1 {
            let rest = heap.update(0, heap.last()).drop_last();
            assert forall|k: int| 0 <= k < rest.len() implies p(#[trigger] rest[k]) by {
                let m = if k == 0 {
                    heap.len() - 1
                } else {
                    k
                };
                assert(p(heap[m]));
            }
            sift_down_keeps_all(rest, lt, 0, p);
            sift_down_keeps_all(without_top(heap), lt, 0, p);
        }
    } else {
        let next = heap.update(0, heap[0].next());
        assert forall|k: int| 0 <= k < next.len() implies p(#[trigger] next[k]) by {
            assert(p(heap[k]));
        }
        sift_down_keeps_all(next, lt, 0, p);
    }
}

/// Every match of every iterator comes exactly once.
pub proof fn merged_matches_are_complete<Q, S>(vs: Seq<MatchView<Q, S>>)
    ensures
        merged(queue_of(vs)).to_multiset() == all_rests(vs),
{
    lemma_queue_complete(vs);
    lemma_upcoming_complete(queue_of(vs));
}

proof fn lemma_queue_complete<Q, S>(vs: Seq<MatchView<Q, S>>)
    ensures
        forall|i: int| 0 <= i < queue_of(vs).len() ==> on_match()(#[trigger] queue_of(vs)[i]),
        all_spans(queue_of(vs)) == all_rests(vs),
    decreases vs.len(),
{
    broadcast use vstd::seq_lib::group_to_multiset_ensures;
    broadcast use vstd::multiset::group_multiset_axioms;

    if vs.len() > 0 {
        lemma_queue_complete(vs.drop_last());
        let before = queue_of(vs.drop_last());
        let v = vs.last();
        if v.rest.len() > 0 {
            let next = v.next();
            let s = before.push(next);
            assert(s.drop_last() =~= before);
            lemma_all_spans_sift_up(s, before.len() as int);
            lemma_first_to_multiset(v.rest);
            assert(spans_of(next) =~= v.rest.to_multiset());
            assert forall|k: int| 0 <= k < s.len() implies on_match()(#[trigger] s[k]) by {
                if k < before.len() {
                    assert(on_match()(before[k]));
                }
            }
            sift_up_keeps_all(s, by_span(), before.len() as int, on_match());
        } else {
            assert(v.rest =~= Seq::<FoundMatch<Q, S>>::empty());
            assert(v.rest.to_multiset() =~= Multiset::<FoundMatch<Q, S>>::empty());
            assert(all_rests(vs) =~= all_rests(vs.drop_last()));
        }
    }
}

/// The matches of one iterator, or those of several ones.
pub enum SubMatches<M: MatchesIterator> {
    /// The matches of one iterator.
    One(M),
    /// The matches of several iterators.
    Many(DisjunctionMatchesIterator<M>),
}

/// The matches of iterators that have not started: those of the only one, or those
/// of several ones in the order of their positions.
pub open spec fn joined<Q, S>(vs: Seq<MatchView<Q, S>>) -> Seq<FoundMatch<Q, S>> {
    if vs.len() == 1 {
        vs[0].rest
    } else {
        merged(queue_of(vs))
    }
}

impl<M: MatchesIterator> MatchesIterator for SubMatches<M> {
    type Query = M::Query;

    type Sub = M::Sub;

    closed spec fn view(&self) -> MatchView<M::Query, M::Sub> {
        match *self {
            SubMatches::One(it) => it.view(),
            SubMatches::Many(it) => it.view(),
        }
    }

    closed spec fn inv(&self) -> bool {
        match *self {
            SubMatches::One(it) => it.inv(),
            SubMatches::Many(it) => it.inv(),
        }
    }

    closed spec fn infallible(&self) -> bool {
        match *self {
            SubMatches::One(it) => it.infallible(),
            SubMatches::Many(it) => it.infallible(),
        }
    }

    fn next(&mut self) -> (r: Result<bool, LuceneError>) {
        match self {
            SubMatches::One(it) => it.next(),
            SubMatches::Many(it) => it.next(),
        }
    }

    fn start_position(&self) -> (r: i32) {
        match self {
            SubMatches::One(it) => it.start_position(),
            SubMatches::Many(it) => it.start_position(),
        }
    }

    fn end_position(&self) -> (r: i32) {
        match self {
            SubMatches::One(it) => it.end_position(),
            SubMatches::Many(it) => it.end_position(),
        }
    }

    fn start_offset(&self) -> (r: Result<i32, LuceneError>) {
        match self {
            SubMatches::One(it) => it.start_offset(),
            SubMatches::Many(it) => it.start_offset(),
        }
    }

    fn end_offset(&self) -> (r: Result<i32, LuceneError>) {
        match self {
            SubMatches::One(it) => it.end_offset(),
            SubMatches::Many(it) => it.end_offset(),
        }
    }

    fn get_sub_matches(&self) -> (r: Result<Option<M::Sub>, LuceneError>) {
        match self {
            SubMatches::One(it) => it.get_sub_matches(),
            SubMatches::Many(it) => it.get_sub_matches(),
        }
    }

    fn get_query(&self) -> (r: Arc<M::Query>) {
        match self {
            SubMatches::One(it) => it.get_query(),
            SubMatches::Many(it) => it.get_query(),
        }
    }
}

/// Every iterator never fails.
pub open spec fn none_fails<M: MatchesIterator>(ms: Seq<M>) -> bool {
    forall|i: int| 0 <= i < ms.len() ==> (#[trigger] ms[i]).infallible()
}

/// Returns an iterator over the matches of all given iterators, which have not
/// started; `None` without iterators.
///
/// # Errors
///
/// Whatever reading the first matches fails with.
pub fn from_sub_iterators<M: MatchesIterator>(mis: Vec<M>) -> (r: Result<
    Option<SubMatches<M>>,
    LuceneError,
>)
    requires
        2 * mis@.len() <= usize::MAX,
        forall|i: int|
            0 <= i < mis@.len() ==> {
                &&& (#[trigger] mis@[i]).inv()
                &&& !mis@[i].view().ended
                &&& mis@[i].view().current is None
            },
    ensures
        none_fails(mis@) ==> r is Ok,
        r matches Ok(found) ==> (found is None <==> mis@.len() == 0),
        mis@.len() == 1 ==> r == Ok::<Option<SubMatches<M>>, LuceneError>(
            Some(SubMatches::One(mis@[0])),
        ),
        r matches Ok(Some(it)) ==> {
            &&& it.inv()
            &&& it.view() == (MatchView { current: None, rest: joined(views(mis@)), ended: false })
            &&& none_fails(mis@) ==> it.infallible()
        },
{
    let mut mis = mis;
    if mis.len() == 0 {
        return Ok(None);
    }
    if mis.len() == 1 {
        assert(mis@[0].infallible() || !none_fails(mis@));
        return match mis.pop() {
            Some(it) => Ok(Some(SubMatches::One(it))),
            None => Ok(None),
        };
    }
    let it = DisjunctionMatchesIterator::new(mis)?;
    Ok(Some(SubMatches::Many(it)))
}

/// Enumerates terms.
pub trait BytesRefIterator {
    /// The terms that are left.
    spec fn remaining(&self) -> Seq<Seq<u8>>;

    /// The internal invariant of the implementation.
    spec fn inv(&self) -> bool;

    /// Whether no step fails.
    spec fn infallible(&self) -> bool;

    /// Returns the next term; `None` when there is none.
    ///
    /// # Errors
    ///
    /// Whatever reading the next term fails with.
    fn next(&mut self) -> (r: Result<Option<Vec<u8>>, LuceneError>)
        requires
            old(self).inv(),
        ensures
            old(self).infallible() ==> r is Ok,
            final(self).infallible() == old(self).infallible(),
            r matches Ok(term) ==> {
                &&& final(self).inv()
                &&& term is None <==> old(self).remaining().len() == 0
                &&& term is None ==> final(self).remaining() == old(self).remaining()
                &&& term matches Some(t) ==> t@ == old(self).remaining()[0]
                    && final(self).remaining() == old(self).remaining().drop_first()
            },
    ;
}

/// Enumerates the terms of another enumeration.
pub struct TermsEnumBytesRefIterator<T: BytesRefIterator>(T);

impl<T: BytesRefIterator> TermsEnumBytesRefIterator<T> {
    /// Creates an enumeration of the terms of `terms_enum`.
    pub fn new(terms_enum: T) -> (r: Self)
        ensures
            r.remaining() == terms_enum.remaining(),
            r.inv() == terms_enum.inv(),
            r.infallible() == terms_enum.infallible(),
    {
        TermsEnumBytesRefIterator(terms_enum)
    }
}

impl<T: BytesRefIterator> BytesRefIterator for TermsEnumBytesRefIterator<T> {
    closed spec fn remaining(&self) -> Seq<Seq<u8>> {
        self.0.remaining()
    }

    closed spec fn inv(&self) -> bool {
        self.0.inv()
    }

    closed spec fn infallible(&self) -> bool {
        self.0.infallible()
    }

    fn next(&mut self) -> (r: Result<Option<Vec<u8>>, LuceneError>) {
        self.0.next()
    }
}

/// A term of a field.
#[derive(Debug)]
pub struct Term {
    /// The field.
    pub field: String,
    /// The bytes of the term.
    pub bytes: Vec<u8>,
}

/// Enumerates given terms.
pub struct TermBytesIterator {
    terms: Vec<Vec<u8>>,
    i: usize,
}

/// The bytes of terms.
pub open spec fn bytes_of(terms: Seq<Term>) -> Seq<Seq<u8>> {
    terms.map_values(|t: Term| t.bytes@)
}

impl TermBytesIterator {
    fn new(terms: &[Term]) -> (r: Self)
        ensures
            r.inv(),
            r.infallible(),
            r.remaining() == bytes_of(terms@),
    {
        let mut bytes: Vec<Vec<u8>> = Vec::with_capacity(terms.len());
        let mut i: usize = 0;
        while i < terms.len()
            invariant
                i <= terms@.len(),
                bytes@.map_values(|b: Vec<u8>| b@) =~= bytes_of(terms@).take(i as int),
            decreases terms.len() - i,
        {
            let ghost before = bytes@;
            bytes.push(copy_of(terms[i].bytes.as_slice()));
            assert(bytes@.map_values(|b: Vec<u8>| b@) =~= before.map_values(|b: Vec<u8>| b@).push(
                terms@[i as int].bytes@,
            ));
            i += 1;
        }
        let r = TermBytesIterator { terms: bytes, i: 0 };
        proof {
            let all = bytes@.map_values(|b: Vec<u8>| b@);
            assert(all =~= bytes_of(terms@));
            assert(r.remaining() =~= all);
        }
        r
    }
}

impl BytesRefIterator for TermBytesIterator {
    closed spec fn remaining(&self) -> Seq<Seq<u8>> {
        self.terms@.skip(self.i as int).map_values(|b: Vec<u8>| b@)
    }

    closed spec fn inv(&self) -> bool {
        self.i <= self.terms@.len()
    }

    open spec fn infallible(&self) -> bool {
        true
    }

    fn next(&mut self) -> (r: Result<Option<Vec<u8>>, LuceneError>) {
        if self.i >= self.terms.len() {
            return Ok(None);
        }
        let term = copy_of(self.terms[self.i].as_slice());
        self.i = self.i + 1;
        assert(self.remaining() =~= old(self).remaining().drop_first());
        Ok(Some(term))
    }
}

/// Finds the matches of terms in a document.
pub trait TermPostings {
    /// The matches of a term.
    type M: MatchesIterator;

    /// The matches of a term in the document; `None` when it is not in it.
    spec fn matches_of(&self, term: Seq<u8>) -> Option<MatchView<<Self::M as MatchesIterator>::Query, <Self::M as MatchesIterator>::Sub>>;

    /// Whether no step fails.
    spec fn infallible(&self) -> bool;

    /// Returns the matches of a term in the document; `None` when it is not in it.
    ///
    /// # Errors
    ///
    /// Whatever reading the term fails with.
    fn seek(&mut self, term: &Vec<u8>) -> (r: Result<Option<Self::M>, LuceneError>)
        ensures
            old(self).infallible() ==> r is Ok,
            final(self).infallible() == old(self).infallible(),
            forall|t: Seq<u8>| #[trigger] final(self).matches_of(t) == old(self).matches_of(t),
            r matches Ok(found) ==> (found is Some <==> old(self).matches_of(term@) is Some),
            r matches Ok(Some(m)) ==> {
                &&& m.inv()
                &&& m.view() == old(self).matches_of(term@)->0
                &&& m.view().current is None
                &&& !m.view().ended
                &&& old(self).infallible() ==> m.infallible()
            },
    ;
}

/// The matches of the terms that are in the document.
pub open spec fn found_views<L: TermPostings>(postings: L, terms: Seq<Seq<u8>>) -> Seq<MatchView<<L::M as MatchesIterator>::Query, <L::M as MatchesIterator>::Sub>>
    decreases terms.len(),
{
    if terms.len() == 0 {
        Seq::empty()
    } else {
        let rest = found_views(postings, terms.drop_first());
        match postings.matches_of(terms[0]) {
            Some(v) => seq![v] + rest,
            None => rest,
        }
    }
}

proof fn lemma_same_found<L: TermPostings>(a: L, b: L, terms: Seq<Seq<u8>>)
    requires
        forall|t: Seq<u8>| #[trigger] a.matches_of(t) == b.matches_of(t),
    ensures
        found_views(a, terms) == found_views(b, terms),
    decreases terms.len(),
{
    if terms.len() > 0 {
        lemma_same_found(a, b, terms.drop_first());
        assert(a.matches_of(terms[0]) == b.matches_of(terms[0]));
    }
}

proof fn lemma_found_len<L: TermPostings>(a: L, terms: Seq<Seq<u8>>)
    ensures
        found_views(a, terms).len() <= terms.len(),
    decreases terms.len(),
{
    if terms.len() > 0 {
        lemma_found_len(a, terms.drop_first());
    }
}

/// Iterates over the matches of several terms. Only the first term with a match is
/// looked up before the iteration starts.
pub struct TermsEnumDisjunctionMatchesIterator<T: BytesRefIterator, L: TermPostings> {
    first: Option<L::M>,
    terms: T,
    postings: L,
    it: Option<SubMatches<L::M>>,
}

/// Returns an iterator over the matches of `terms`; `None` if none of them has a
/// match.
///
/// # Errors
///
/// Whatever reading the terms or their matches fails with.
pub fn from_terms_enum<T: BytesRefIterator, L: TermPostings>(terms: T, postings: L) -> (r: Result<
    Option<TermsEnumDisjunctionMatchesIterator<T, L>>,
    LuceneError,
>)
    requires
        terms.inv(),
        2 * terms.remaining().len() <= usize::MAX,
    ensures
        terms.infallible() && postings.infallible() ==> r is Ok,
        r matches Ok(found) ==> (found is None <==> found_views(
            postings,
            terms.remaining(),
        ).len() == 0),
        r matches Ok(Some(it)) ==> {
            &&& it.inv()
            &&& it.view() == (MatchView {
                current: None,
                rest: joined(found_views(postings, terms.remaining())),
                ended: false,
            })
            &&& terms.infallible() && postings.infallible() ==> it.infallible()
        },
{
    let ghost all = terms.remaining();
    let ghost postings0 = postings;
    let ghost safe = terms.infallible() && postings.infallible();
    let mut source = terms;
    let mut lookup = postings;
    loop
        invariant
            all == terms.remaining(),
            postings0 == postings,
            source.inv(),
            source.remaining().len() <= all.len(),
            2 * all.len() <= usize::MAX,
            safe == (terms.infallible() && postings.infallible()),
            safe ==> source.infallible() && lookup.infallible(),
            forall|t: Seq<u8>| #[trigger] lookup.matches_of(t) == postings0.matches_of(t),
            found_views(postings0, source.remaining()) == found_views(postings0, all),
        decreases source.remaining().len(),
    {
        let ghost left = source.remaining();
        match source.next()? {
            None => {
                return Ok(None);
            },
            Some(term) => {
                match lookup.seek(&term)? {
                    Some(first) => {
                        let r = TermsEnumDisjunctionMatchesIterator {
                            first: Some(first),
                            terms: source,
                            postings: lookup,
                            it: None,
                        };
                        proof {
                            lemma_same_found(lookup, postings0, source.remaining());
                            assert(seq![first.view()] + found_views(
                                postings0,
                                left.drop_first(),
                            ) == found_views(postings0, left));
                        }
                        return Ok(Some(r));
                    },
                    None => {},
                }
            },
        }
    }
}

/// Returns an iterator over the matches of `terms` of `field`; `None` if none of
/// them has a match.
///
/// # Errors
///
/// [`LuceneError::IllegalArgument`] if a term is of another field; whatever reading
/// the matches fails with.
pub fn from_terms<L: TermPostings>(field: &str, terms: &[Term], postings: L) -> (r: Result<
    Option<TermsEnumDisjunctionMatchesIterator<TermBytesIterator, L>>,
    LuceneError,
>)
    requires
        2 * terms@.len() <= usize::MAX,
    ensures
        all_of_field(terms@, field@) && postings.infallible() ==> r is Ok,
        !all_of_field(terms@, field@) ==> (r matches Err(e) && exists|i: int|
            0 <= i < terms@.len() && all_of_field(terms@.take(i), field@) && (
            #[trigger] terms@[i]).field@ != field@ && e.is_illegal_argument(
                "Tried to generate iterator from terms in multiple fields: expected ["@ + field@
                    + "] but got ["@ + terms@[i].field@ + "]"@,
            )),
        r matches Ok(found) ==> (found is None <==> found_views(postings, bytes_of(terms@)).len()
            == 0),
        r matches Ok(Some(it)) ==> {
            &&& it.inv()
            &&& it.view() == (MatchView {
                current: None,
                rest: joined(found_views(postings, bytes_of(terms@))),
                ended: false,
            })
            &&& postings.infallible() ==> it.infallible()
        },
{
    let mut i: usize = 0;
    while i < terms.len()
        invariant
            i <= terms@.len(),
            all_of_field(terms@.take(i as int), field@),
        decreases terms.len() - i,
    {
        if !same_text(terms[i].field.as_str(), field) {
            let mut text =
                "Tried to generate iterator from terms in multiple fields: expected [".to_owned();
            text.append(field);
            text.append("] but got [");
            text.append(terms[i].field.as_str());
            text.append("]");
            assert(terms@[i as int].field@ != field@);
            return Err(LuceneError::IllegalArgument(text));
        }
        assert forall|j: int| 0 <= j < i + 1 implies (#[trigger] terms@.take(i + 1)[j]).field@
            == field@ by {
            if j < i {
                assert(terms@.take(i as int)[j].field@ == field@);
            }
        }
        i += 1;
    }
    assert(terms@.take(i as int) =~= terms@);
    let bytes = TermBytesIterator::new(terms);
    from_terms_enum(bytes, postings)
}

/// All terms are of the field.
pub open spec fn all_of_field(terms: Seq<Term>, field: Seq<char>) -> bool {
    forall|i: int| 0 <= i < terms.len() ==> (#[trigger] terms[i]).field@ == field
}

impl<T: BytesRefIterator, L: TermPostings> TermsEnumDisjunctionMatchesIterator<T, L> {
    /// Looks up the other terms.
    fn init(&mut self) -> (r: Result<(), LuceneError>)
        requires
            old(self).inv(),
            old(self).it is None,
        ensures
            old(self).infallible() ==> r is Ok && final(self).infallible(),
            r is Ok ==> {
                &&& final(self).inv()
                &&& final(self).it is Some
                &&& final(self).view() == old(self).view()
            },
    {
        let ghost v = self.view();
        let ghost safe = self.infallible();
        let ghost postings0 = self.postings;
        let mut mis: Vec<L::M> = Vec::new();
        match self.first.take() {
            Some(first) => {
                mis.push(first);
            },
            None => {},
        }
        assert(self.terms.remaining().len() + 1 == self.terms.remaining().len() + mis@.len());
        assert(views(mis@) =~= seq![old(self).first->0.view()]);
        loop
            invariant
                self.terms.inv(),
                self.it is None,
                safe == old(self).infallible(),
                safe ==> self.terms.infallible() && self.postings.infallible(),
                safe ==> none_fails(mis@),
                forall|t: Seq<u8>| #[trigger]
                    self.postings.matches_of(t) == postings0.matches_of(t),
                mis@.len() >= 1,
                2 * (mis@.len() + self.terms.remaining().len()) <= usize::MAX,
                forall|i: int|
                    0 <= i < mis@.len() ==> {
                        &&& (#[trigger] mis@[i]).inv()
                        &&& !mis@[i].view().ended
                        &&& mis@[i].view().current is None
                    },
                v == (MatchView {
                    current: None,
                    rest: joined(
                        views(mis@) + found_views(postings0, self.terms.remaining()),
                    ),
                    ended: false,
                }),
            ensures
                self.terms.remaining().len() == 0,
            decreases self.terms.remaining().len(),
        {
            let ghost left = self.terms.remaining();
            let ghost before = mis@;
            match self.terms.next()? {
                None => {
                    break;
                },
                Some(term) => {
                    match self.postings.seek(&term)? {
                        Some(m) => {
                            mis.push(m);
                            proof {
                                assert(views(mis@) =~= views(before).push(m.view()));
                                assert(views(mis@) + found_views(postings0, left.drop_first())
                                    =~= views(before) + found_views(postings0, left));
                            }
                        },
                        None => {},
                    }
                },
            }
        }
        assert(views(mis@) + found_views(postings0, self.terms.remaining()) =~= views(mis@));
        self.it = from_sub_iterators(mis)?;
        Ok(())
    }
}

impl<T: BytesRefIterator, L: TermPostings> MatchesIterator for TermsEnumDisjunctionMatchesIterator<
    T,
    L,
> {
    type Query = <L::M as MatchesIterator>::Query;

    type Sub = <L::M as MatchesIterator>::Sub;

    closed spec fn view(&self) -> MatchView<
        <L::M as MatchesIterator>::Query,
        <L::M as MatchesIterator>::Sub,
    > {
        match self.it {
            Some(it) => it.view(),
            None => MatchView {
                current: None,
                rest: joined(
                    seq![self.first->0.view()] + found_views(
                        self.postings,
                        self.terms.remaining(),
                    ),
                ),
                ended: false,
            },
        }
    }

    closed spec fn inv(&self) -> bool {
        match self.it {
            Some(it) => it.inv(),
            None => {
                &&& self.first is Some
                &&& self.first->0.inv()
                &&& self.first->0.view().current is None
                &&& !self.first->0.view().ended
                &&& self.terms.inv()
                &&& 2 * (self.terms.remaining().len() + 1) <= usize::MAX
            },
        }
    }

    closed spec fn infallible(&self) -> bool {
        match self.it {
            Some(it) => it.infallible(),
            None => self.first->0.infallible() && self.terms.infallible()
                && self.postings.infallible(),
        }
    }

    fn next(&mut self) -> (r: Result<bool, LuceneError>) {
        if self.it.is_none() {
            self.init()?;
        }
        match &mut self.it {
            Some(it) => it.next(),
            None => Ok(false),
        }
    }

    fn start_position(&self) -> (r: i32) {
        match &self.it {
            Some(it) => it.start_position(),
            None => -1,
        }
    }

    fn end_position(&self) -> (r: i32) {
        match &self.it {
            Some(it) => it.end_position(),
            None => -1,
        }
    }

    fn start_offset(&self) -> (r: Result<i32, LuceneError>) {
        match &self.it {
            Some(it) => it.start_offset(),
            None => Ok(-1),
        }
    }

    fn end_offset(&self) -> (r: Result<i32, LuceneError>) {
        match &self.it {
            Some(it) => it.end_offset(),
            None => Ok(-1),
        }
    }

    fn get_sub_matches(&self) -> (r: Result<
        Option<<L::M as MatchesIterator>::Sub>,
        LuceneError,
    >) {
        match &self.it {
            Some(it) => it.get_sub_matches(),
            None => Ok(None),
        }
    }

    fn get_query(&self) -> (r: Arc<<L::M as MatchesIterator>::Query>) {
        let it = self.it.as_ref();
        it.unwrap().get_query()
    }
}

} // verus!
