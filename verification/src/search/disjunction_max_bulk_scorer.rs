//! Scoring of ranges of documents by the greatest score of several scorers.

use vstd::prelude::*;

use crate::error::LuceneError;
use crate::search::bulk_scorer::{
    carried, entries_in, entries_of_parts, is_report, is_report_so_far, kept, reports,
    reports_of_first_part, reports_of_parts, BulkScorer, ScoreCollector,
};
use crate::search::collector::{docs_in, docs_in_none, docs_in_split, CollectionError};
use crate::search::dense_conjunction_bulk_scorer::accepts;
use crate::search::index_priority_queue::{
    all_below, bulk_addition_makes_heap, by_value, IndexOrder, IndexPriorityQueue,
};
use crate::util::bits::Bits;
use crate::util::fixed_bit_set::{is_next_set_bit, FixedBitSet};
use crate::util::heap::{
    heap_root_is_least, is_heap, is_heap_from, parent, refines, sift_down_restores_heap,
};
use crate::util::math::unsigned_min;
use crate::util::positions::{lists_range, lists_range_bounds, lists_range_permuted, positions};
use crate::util::text::{decimal_int, with_number};

verus! {

/// The number of documents of a window.
const WINDOW_SIZE: i32 = 4096;

/// The greatest score of `doc` in `log`; 0 without one.
spec fn best(log: Seq<(int, i32)>, doc: int) -> i32
    decreases log.len(),
{
    if log.len() == 0 {
        0
    } else {
        let before = best(log.drop_last(), doc);
        if log.last().0 == doc && log.last().1 > before {
            log.last().1
        } else {
            before
        }
    }
}

/// Whether `doc` is in `log`.
spec fn seen(log: Seq<(int, i32)>, doc: int) -> bool
    decreases log.len(),
{
    log.len() > 0 && (log.last().0 == doc || seen(log.drop_last(), doc))
}

/// Collects the documents of a window, each with its greatest score.
struct ScoreWindow {
    matches: FixedBitSet,
    scores: Vec<i32>,
    base: i32,
    floor: i32,
    log: Ghost<Seq<(int, i32)>>,
}

impl ScoreWindow {
    spec fn consistent(&self) -> bool {
        &&& self.base >= 0
        &&& self.matches@.len() == WINDOW_SIZE + 1
        &&& self.scores@.len() == WINDOW_SIZE
        &&& forall|x: int|
            0 <= x <= WINDOW_SIZE ==> #[trigger] self.matches@[x] == (x < WINDOW_SIZE && seen(
                self.log@,
                self.base + x,
            ))
        &&& forall|x: int|
            0 <= x < WINDOW_SIZE ==> #[trigger] self.scores@[x] == best(self.log@, self.base + x)
    }
}

impl ScoreCollector for ScoreWindow {
    closed spec fn collected(&self) -> Seq<(int, i32)> {
        self.log@
    }

    closed spec fn inv(&self) -> bool {
        self.consistent()
    }

    open spec fn infallible(&self) -> bool {
        true
    }

    closed spec fn takes(&self, doc: int) -> bool {
        self.base <= doc < self.base + WINDOW_SIZE
    }

    closed spec fn floor(&self) -> i32 {
        self.floor
    }

    open spec fn steady(&self) -> bool {
        true
    }

    open spec fn ended(&self) -> bool {
        false
    }

    fn min_competitive_score(&self) -> (r: i32) {
        self.floor
    }

    fn collect(&mut self, doc: i32, score: i32) -> (r: Result<(), CollectionError>) {
        let ghost log0 = self.log@;
        let delta: usize = (doc - self.base) as usize;
        self.matches.set(delta);
        if score > self.scores[delta] {
            self.scores[delta] = score;
        }
        proof {
            self.log@ = log0.push((doc as int, score));
            assert(self.log@.drop_last() =~= log0);
        }
        Ok(())
    }
}

/// A scorer, and a document before which it has nothing left.
struct BulkScorerAndNext<S> {
    scorer: S,
    next: i32,
}

/// Orders scorers by their next document.
struct ByNext;

impl<S: BulkScorer> IndexOrder<BulkScorerAndNext<S>> for ByNext {
    closed spec fn less(a: BulkScorerAndNext<S>, b: BulkScorerAndNext<S>) -> bool {
        a.next < b.next
    }

    fn less_than(a: &BulkScorerAndNext<S>, b: &BulkScorerAndNext<S>) -> (r: bool) {
        a.next < b.next
    }
}

/// The order by next document, on positions.
spec fn by_next<S>(es: Seq<BulkScorerAndNext<S>>) -> spec_fn(usize, usize) -> bool {
    |a: usize, b: usize| es[a as int].next <= es[b as int].next
}

/// Whether one of the first `k` scorers has `doc` left.
pub open spec fn any_has(ms: Seq<Map<int, i32>>, doc: int) -> bool {
    exists|i: int| 0 <= i < ms.len() && #[trigger] ms[i].dom().contains(doc)
}

/// The greatest score of `doc`; 0 without one.
pub open spec fn greatest(ms: Seq<Map<int, i32>>, doc: int) -> i32
    decreases ms.len(),
{
    if ms.len() == 0 {
        0
    } else {
        let before = greatest(ms.drop_last(), doc);
        if ms.last().dom().contains(doc) && ms.last()[doc] > before {
            ms.last()[doc]
        } else {
            before
        }
    }
}

/// The documents of all maps, each with its greatest score.
pub open spec fn greatest_scores(ms: Seq<Map<int, i32>>) -> Map<int, i32> {
    Map::new(|d: int| any_has(ms, d), |d: int| greatest(ms, d))
}

/// The scores are not negative.
pub open spec fn nonnegative(m: Map<int, i32>) -> bool {
    forall|d: int| #[trigger] m.dom().contains(d) ==> m[d] >= 0
}

proof fn lemma_greatest(ms: Seq<Map<int, i32>>, doc: int)
    ensures
        greatest(ms, doc) >= 0,
        forall|i: int|
            0 <= i < ms.len() && #[trigger] ms[i].dom().contains(doc) ==> ms[i][doc] <= greatest(
                ms,
                doc,
            ),
        greatest(ms, doc) == 0 || exists|i: int|
            0 <= i < ms.len() && #[trigger] ms[i].dom().contains(doc) && ms[i][doc] == greatest(
                ms,
                doc,
            ),
    decreases ms.len(),
{
    if ms.len() > 0 {
        let rest = ms.drop_last();
        lemma_greatest(rest, doc);
        assert forall|i: int| 0 <= i < ms.len() && #[trigger] ms[i].dom().contains(doc) implies
            ms[i][doc] <= greatest(ms, doc) by {
            if i < ms.len() - 1 {
                assert(rest[i].dom().contains(doc));
            }
        }
        if greatest(ms, doc) != 0 {
            if ms.last().dom().contains(doc) && ms.last()[doc] > greatest(rest, doc) {
                assert(ms[ms.len() - 1].dom().contains(doc));
            } else {
                let i = choose|i: int|
                    0 <= i < rest.len() && #[trigger] rest[i].dom().contains(doc) && rest[i][doc]
                        == greatest(rest, doc);
                assert(ms[i].dom().contains(doc));
            }
        }
    }
}

/// When the scores are not negative, some map has the greatest score.
proof fn lemma_greatest_witness(ms: Seq<Map<int, i32>>, doc: int) -> (i: int)
    requires
        any_has(ms, doc),
        forall|i: int| 0 <= i < ms.len() ==> #[trigger] nonnegative(ms[i]),
    ensures
        0 <= i < ms.len(),
        ms[i].dom().contains(doc),
        ms[i][doc] == greatest(ms, doc),
{
    lemma_greatest(ms, doc);
    if greatest(ms, doc) == 0 {
        let i = choose|i: int| 0 <= i < ms.len() && #[trigger] ms[i].dom().contains(doc);
        assert(nonnegative(ms[i]));
        i
    } else {
        choose|i: int|
            0 <= i < ms.len() && #[trigger] ms[i].dom().contains(doc) && ms[i][doc] == greatest(
                ms,
                doc,
            )
    }
}

/// What is left of each scorer is left of the greatest scores.
proof fn lemma_carried<B: Bits>(
    before: Seq<Map<int, i32>>,
    after: Seq<Map<int, i32>>,
    accept_docs: Option<&B>,
    max: int,
    next: int,
    floor: i32,
)
    requires
        before.len() == after.len(),
        forall|i: int| 0 <= i < before.len() ==> #[trigger] nonnegative(before[i]),
        forall|i: int|
            0 <= i < before.len() ==> carried(
                before[i],
                #[trigger] after[i],
                accept_docs,
                max,
                next,
                floor,
            ),
    ensures
        carried(
            greatest_scores(before),
            greatest_scores(after),
            accept_docs,
            max,
            next,
            floor,
        ),
        forall|i: int| 0 <= i < after.len() ==> #[trigger] nonnegative(after[i]),
{
    let a = greatest_scores(before);
    let b = greatest_scores(after);
    assert forall|d: int| #[trigger] b.dom().contains(d) implies {
        &&& d >= next
        &&& a.dom().contains(d)
        &&& 0 <= b[d] <= a[d]
    } by {
        lemma_greatest(before, d);
        lemma_greatest(after, d);
        let i = choose|i: int| 0 <= i < after.len() && #[trigger] after[i].dom().contains(d);
        assert(carried(before[i], after[i], accept_docs, max, next, floor));
        assert(before[i].dom().contains(d));
        if greatest(after, d) != 0 {
            let j = choose|j: int|
                0 <= j < after.len() && #[trigger] after[j].dom().contains(d) && after[j][d]
                    == greatest(after, d);
            assert(carried(before[j], after[j], accept_docs, max, next, floor));
            assert(before[j].dom().contains(d));
        }
    }
    assert forall|d: int| #[trigger]
        a.dom().contains(d) && d >= max && accepts(accept_docs, d) && a[d] >= floor implies
        b.dom().contains(d) && b[d] == a[d] by {
        let i = lemma_greatest_witness(before, d);
        assert(carried(before[i], after[i], accept_docs, max, next, floor));
        assert(after[i].dom().contains(d));
        lemma_greatest(after, d);
        lemma_greatest(before, d);
        if greatest(after, d) != 0 {
            let j = choose|j: int|
                0 <= j < after.len() && #[trigger] after[j].dom().contains(d) && after[j][d]
                    == greatest(after, d);
            assert(carried(before[j], after[j], accept_docs, max, next, floor));
            assert(before[j].dom().contains(d));
        }
    }
    assert forall|i: int| 0 <= i < after.len() implies #[trigger] nonnegative(after[i]) by {
        assert(carried(before[i], after[i], accept_docs, max, next, floor));
    }
}

/// The number of scorers whose next document is before `end`.
spec fn num_before<S>(es: Seq<BulkScorerAndNext<S>>, end: int) -> nat
    decreases es.len(),
{
    if es.len() == 0 {
        0
    } else {
        num_before(es.drop_last(), end) + if es.last().next < end {
            1nat
        } else {
            0
        }
    }
}

proof fn lemma_num_before_update<S>(
    es: Seq<BulkScorerAndNext<S>>,
    i: int,
    e: BulkScorerAndNext<S>,
    end: int,
)
    requires
        0 <= i < es.len(),
        es[i].next < end,
        e.next >= end,
    ensures
        num_before(es.update(i, e), end) + 1 == num_before(es, end),
    decreases es.len(),
{
    let after = es.update(i, e);
    if i == es.len() - 1 {
        assert(after.drop_last() =~= es.drop_last());
    } else {
        assert(after.drop_last() =~= es.drop_last().update(i, e));
        lemma_num_before_update(es.drop_last(), i, e, end);
    }
}

/// What is left of each scorer.
spec fn maps<S: BulkScorer>(es: Seq<BulkScorerAndNext<S>>) -> Seq<Map<int, i32>> {
    es.map_values(|e: BulkScorerAndNext<S>| e.scorer.remaining())
}

/// The scorer is intact and has nothing left before its next document.
spec fn entry_inv<S: BulkScorer>(e: BulkScorerAndNext<S>) -> bool {
    &&& e.scorer.inv()
    &&& e.next >= 0
    &&& nonnegative(e.scorer.remaining())
    &&& forall|d: int| #[trigger] e.scorer.remaining().dom().contains(d) ==> d >= e.next
    &&& e.next == 0 || e.next == e.scorer.last_next()
}

/// `n` is the least of `ns`.
pub open spec fn is_least(ns: Seq<int>, n: int) -> bool {
    &&& ns.contains(n)
    &&& forall|i: int| 0 <= i < ns.len() ==> n <= #[trigger] ns[i]
}

/// The sum of the costs, which wraps around.
pub open spec fn wrapping_cost<S: BulkScorer>(scorers: Seq<S>) -> i64
    decreases scorers.len(),
{
    if scorers.len() == 0 {
        0
    } else {
        wrapping_cost(scorers.drop_last()).wrapping_add(scorers.last().reported_cost())
    }
}

/// The documents of `log`, each with its greatest score.
spec fn log_map(log: Seq<(int, i32)>) -> Map<int, i32> {
    Map::new(|d: int| seen(log, d), |d: int| best(log, d))
}

proof fn lemma_log_append(
    log: Seq<(int, i32)>,
    reported: Map<int, i32>,
    from: int,
    to: int,
    d: int,
)
    ensures
        seen(log + entries_in(reported, from, to), d) == (seen(log, d) || (from <= d < to
            && reported.dom().contains(d))),
        best(log + entries_in(reported, from, to), d) == if from <= d < to
            && reported.dom().contains(d) && reported[d] > best(log, d) {
            reported[d]
        } else {
            best(log, d)
        },
    decreases to - from,
{
    let all = log + entries_in(reported, from, to);
    if to <= from {
        assert(all =~= log);
    } else {
        lemma_log_append(log, reported, from, to - 1, d);
        let before = log + entries_in(reported, from, to - 1);
        if reported.dom().contains(to - 1) {
            assert(all =~= before.push((to - 1, reported[to - 1])));
            assert(all.drop_last() =~= before);
        } else {
            assert(all =~= before);
        }
    }
}

/// The scores of a log are not negative.
proof fn lemma_best_nonnegative(log: Seq<(int, i32)>, d: int)
    ensures
        best(log, d) >= 0,
    decreases log.len(),
{
    if log.len() > 0 {
        lemma_best_nonnegative(log.drop_last(), d);
    }
}

/// The queue is in order by next document.
spec fn queue_inv<S: BulkScorer>(
    queue: IndexPriorityQueue<BulkScorerAndNext<S>, ByNext>,
    es: Seq<BulkScorerAndNext<S>>,
) -> bool {
    &&& queue.wf()
    &&& queue@.len() == es.len()
    &&& lists_range(queue@, 0, es.len() as int)
    &&& is_heap(queue@, by_next(es))
}

/// The first position of the queue has the least next document.
proof fn lemma_top_is_least<S: BulkScorer>(
    queue: IndexPriorityQueue<BulkScorerAndNext<S>, ByNext>,
    es: Seq<BulkScorerAndNext<S>>,
)
    requires
        queue_inv(queue, es),
        0 < es.len() <= usize::MAX,
    ensures
        queue@[0] < es.len(),
        all_below(queue@, es.len()),
        forall|i: int| 0 <= i < es.len() ==> es[queue@[0] as int].next <= (#[trigger] es[i]).next,
{
    lists_range_bounds(queue@, 0, es.len() as int);
    assert forall|i: int| 0 <= i < es.len() implies es[queue@[0] as int].next <= (
    #[trigger] es[i]).next by {
        assert(queue@.contains(i as usize));
        let q = choose|q: int| 0 <= q < queue@.len() && queue@[q] == i as usize;
        heap_root_is_least(queue@, by_next(es), q);
    }
}

/// Moving the first scorer forward leaves the rest of the queue in order.
proof fn lemma_top_moved<S: BulkScorer>(
    queue: Seq<usize>,
    before: Seq<BulkScorerAndNext<S>>,
    after: Seq<BulkScorerAndNext<S>>,
)
    requires
        queue.len() > 0,
        queue.len() == before.len(),
        before.len() == after.len(),
        lists_range(queue, 0, before.len() as int),
        is_heap(queue, by_next(before)),
        forall|i: int| 0 <= i < before.len() && i != queue[0] ==> after[i] == #[trigger] before[i],
    ensures
        is_heap_from(queue, by_next(after), 1),
        refines(by_value::<BulkScorerAndNext<S>, ByNext>(after), by_next(after)),
{
    lists_range_bounds(queue, 0, before.len() as int);
    let le = by_next(after);
    assert forall|c: int| #![trigger queue[c]] 0 < c < queue.len() && parent(c) >= 1 implies le(
        queue[parent(c)],
        queue[c],
    ) by {
        assert(by_next(before)(queue[parent(c)], queue[c]));
        assert(queue[c] != queue[0]);
        assert(queue[parent(c)] != queue[0]);
        assert(after[queue[c] as int] == before[queue[c] as int]);
        assert(after[queue[parent(c)] as int] == before[queue[parent(c)] as int]);
    }
}

/// Scores documents by the greatest of the scores that several scorers give them.
#[verifier::reject_recursive_types(S)]
pub struct DisjunctionMaxBulkScorer<S: BulkScorer> {
    window: ScoreWindow,
    entries: Vec<BulkScorerAndNext<S>>,
    queue: IndexPriorityQueue<BulkScorerAndNext<S>, ByNext>,
    cost: i64,
}

impl<S: BulkScorer> DisjunctionMaxBulkScorer<S> {
    /// The sub scorers.
    pub closed spec fn sub_scorers(&self) -> Seq<S> {
        self.entries@.map_values(|e: BulkScorerAndNext<S>| e.scorer)
    }

    /// The next document of each sub scorer: what it returned last, or 0 as long as
    /// it was not asked.
    pub closed spec fn next_docs(&self) -> Seq<int> {
        self.entries@.map_values(|e: BulkScorerAndNext<S>| e.next as int)
    }

    /// The next document of a sub scorer is the one that it returned last, unless it is 0.
    pub proof fn next_docs_are_those_returned(&self)
        requires
            self.inv(),
        ensures
            self.next_docs().len() == self.sub_scorers().len(),
            forall|i: int|
                0 <= i < self.next_docs().len() ==> #[trigger] self.next_docs()[i] == 0
                    || self.next_docs()[i] == self.sub_scorers()[i].last_next(),
    {
        assert forall|i: int| 0 <= i < self.next_docs().len() implies #[trigger] self.next_docs()[i]
            == 0 || self.next_docs()[i] == self.sub_scorers()[i].last_next() by {
            assert(entry_inv(self.entries@[i]));
        }
    }

    /// Creates a bulk scorer over the documents of all `scorers`.
    ///
    /// # Errors
    ///
    /// [`LuceneError::IllegalArgument`] if there are fewer than two scorers.
    pub fn new(scorers: Vec<S>) -> (r: Result<Self, LuceneError>)
        requires
            2 * scorers@.len() < usize::MAX,
            forall|i: int|
                0 <= i < scorers@.len() ==> {
                    &&& (#[trigger] scorers@[i]).inv()
                    &&& nonnegative(scorers@[i].remaining())
                    &&& forall|d: int| #[trigger]
                        scorers@[i].remaining().dom().contains(d) ==> d >= 0
                },
        ensures
            r is Ok <==> scorers@.len() >= 2,
            r matches Err(e) ==> e.is_illegal_argument(
                "Expected 2 or more bulk scorers, got "@ + decimal_int(scorers@.len() as int),
            ),
            r matches Ok(scorer) ==> {
                &&& scorer.inv()
                &&& scorer.reported_cost() == wrapping_cost(scorers@)
                &&& scorer.sub_scorers() == scorers@
                &&& scorer.next_docs() == Seq::new(scorers@.len(), |i: int| 0int)
                &&& scorer.remaining() == greatest_scores(
                    scorers@.map_values(|s: S| s.remaining()),
                )
                &&& scorer.infallible() <==> forall|i: int|
                    0 <= i < scorers@.len() ==> #[trigger] scorers@[i].infallible()
            },
    {
        let n: usize = scorers.len();
        if n < 2 {
            return Err(
                LuceneError::IllegalArgument(
                    with_number("Expected 2 or more bulk scorers, got ", n as i64),
                ),
            );
        }
        let ghost all = scorers@;
        let mut cost: i64 = 0;
        let mut i: usize = 0;
        while i < n
            invariant
                n == scorers@.len(),
                all == scorers@,
                i <= n,
                cost == wrapping_cost(all.take(i as int)),
                forall|i: int| 0 <= i < scorers@.len() ==> (#[trigger] scorers@[i]).inv(),
            decreases n - i,
        {
            assert(all.take(i + 1).drop_last() =~= all.take(i as int));
            cost = cost.wrapping_add(scorers[i].cost());
            i += 1;
        }
        assert(all.take(i as int) =~= all);
        let mut entries: Vec<BulkScorerAndNext<S>> = Vec::with_capacity(n);
        for scorer in it: scorers
            invariant
                it.seq() == all,
                entries@ =~= all.take(it.index() as int).map_values(
                    |s: S| BulkScorerAndNext { scorer: s, next: 0 },
                ),
        {
            entries.push(BulkScorerAndNext { scorer, next: 0 });
        }
        let mut queue: IndexPriorityQueue<BulkScorerAndNext<S>, ByNext> = IndexPriorityQueue::new(n);
        let elements: Vec<usize> = positions(0, n);
        queue.add_all(entries.as_slice(), elements.as_slice());
        let window = ScoreWindow {
            matches: FixedBitSet::new((WINDOW_SIZE + 1) as usize),
            scores: vec![0i32; WINDOW_SIZE as usize],
            base: 0,
            floor: 0,
            log: Ghost(Seq::empty()),
        };
        proof {
            let lt = by_value::<BulkScorerAndNext<S>, ByNext>(entries@);
            let le = by_next(entries@);
            assert(refines(lt, le));
            let none = Seq::<usize>::empty();
            assert(none + elements@ =~= elements@);
            bulk_addition_makes_heap::<BulkScorerAndNext<S>, ByNext>(entries@, le, elements@);
            assert forall|p: usize| elements@.contains(p) <==> 0 <= p < n by {
                if p < n {
                    assert(elements@[p as int] == p);
                }
            }
            assert(lists_range(elements@, 0, n as int));
            lists_range_permuted(elements@, queue@, 0, n as int);
            assert(maps(entries@) =~= all.map_values(|s: S| s.remaining()));
            assert forall|i: int| 0 <= i < n implies entry_inv(#[trigger] entries@[i]) by {
                assert(all[i].inv());
            }
            assert((forall|i: int| 0 <= i < all.len() ==> #[trigger] all[i].infallible()) <==> (
            forall|i: int|
                0 <= i < entries@.len() ==> (#[trigger] entries@[i]).scorer.infallible())) by {
                assert forall|i: int| 0 <= i < all.len() implies #[trigger] all[i].infallible()
                    == entries@[i].scorer.infallible() by {
                }
                if forall|i: int| 0 <= i < all.len() ==> #[trigger] all[i].infallible() {
                    assert forall|i: int| 0 <= i < entries@.len() implies (
                    #[trigger] entries@[i]).scorer.infallible() by {
                        assert(all[i].infallible());
                    }
                }
            }
        }
        let r = DisjunctionMaxBulkScorer { window, entries, queue, cost };
        assert(r.sub_scorers() =~= all);
        assert(r.next_docs() =~= Seq::new(all.len(), |i: int| 0int));
        Ok(r)
    }

    /// Collects the scores of the documents of `[window_min, window_max)` that
    /// all scorers give.
    fn fill_window<B: Bits>(
        &mut self,
        accept_docs: Option<&B>,
        window_min: i32,
        window_max: i32,
        floor: i32,
    ) -> (r: Result<(), CollectionError>)
        requires
            old(self).inv(),
            0 <= window_min <= window_max <= window_min + WINDOW_SIZE,
            accept_docs matches Some(bits) ==> forall|d: int| #[trigger]
                old(self).remaining().dom().contains(d) && window_min <= d < window_max ==> d
                    < bits.bit_seq().len(),
        ensures
            old(self).infallible() ==> r is Ok,
            !(r matches Err(CollectionError::CollectionTerminated)),
            final(self).cost == old(self).cost,
            r is Ok ==> {
                &&& final(self).infallible() == old(self).infallible()
                &&& final(self).queue_ok()
                &&& final(self).window.consistent()
                &&& final(self).window.base == window_min
                &&& final(self).entries@.len() == old(self).entries@.len()
                &&& forall|i: int|
                    0 <= i < old(self).entries@.len() ==> {
                        &&& (#[trigger] final(self).entries@[i]).next >= window_max
                        &&& final(self).entries@[i].next >= old(self).entries@[i].next
                        &&& carried(
                            old(self).entries@[i].scorer.remaining(),
                            final(self).entries@[i].scorer.remaining(),
                            accept_docs,
                            window_max as int,
                            final(self).entries@[i].next as int,
                            floor,
                        )
                    }
                &&& reports(
                    greatest_scores(maps(old(self).entries@)),
                    accept_docs,
                    window_min as int,
                    window_max as int,
                    floor,
                    log_map(final(self).window.log@),
                )
            },
    {
        let ghost es0 = self.entries@;
        let ghost rem0 = maps(es0);
        assert(greatest_scores(rem0) == old(self).remaining());
        self.window.base = window_min;
        self.window.floor = floor;
        let mut top: usize = match self.queue.top() {
            Some(t) => t,
            None => 0,
        };
        proof {
            assert(self.entries@.len() == self.entries.len());
            lemma_top_is_least(self.queue, self.entries@);
        }
        while self.entries[top].next < window_max
            invariant
                self.queue_ok(),
                self.window.consistent(),
                self.window.base == window_min,
                self.window.floor == floor,
                self.cost == old(self).cost,
                0 <= window_min <= window_max <= window_min + WINDOW_SIZE,
                accept_docs matches Some(bits) ==> forall|d: int| #[trigger]
                    greatest_scores(rem0).dom().contains(d) && window_min <= d < window_max ==> d
                        < bits.bit_seq().len(),
                es0 == old(self).entries@,
                rem0 == maps(es0),
                self.entries@.len() == es0.len(),
                self.infallible() == old(self).infallible(),
                top == self.queue@[0],
                top < self.entries@.len(),
                forall|i: int| 0 <= i < es0.len() ==> entry_inv(#[trigger] es0[i]),
                forall|i: int|
                    0 <= i < es0.len() ==> self.entries@[top as int].next <= (
                    #[trigger] self.entries@[i]).next,
                forall|i: int|
                    0 <= i < es0.len() ==> (#[trigger] self.entries@[i]) == es0[i] || {
                        &&& self.entries@[i].next >= window_max
                        &&& self.entries@[i].next >= es0[i].next
                        &&& carried(
                            es0[i].scorer.remaining(),
                            self.entries@[i].scorer.remaining(),
                            accept_docs,
                            window_max as int,
                            self.entries@[i].next as int,
                            floor,
                        )
                    },
                forall|d: int| #[trigger]
                    seen(self.window.log@, d) ==> {
                        &&& window_min <= d < window_max
                        &&& accepts(accept_docs, d)
                        &&& any_has(rem0, d)
                        &&& best(self.window.log@, d) <= greatest(rem0, d)
                    },
                forall|i: int, d: int|
                    0 <= i < es0.len() && self.entries@[i].next >= window_max
                        && #[trigger] es0[i].scorer.remaining().dom().contains(d) && window_min <= d
                        < window_max && accepts(accept_docs, d) && es0[i].scorer.remaining()[d]
                        >= floor ==> seen(self.window.log@, d) && best(self.window.log@, d)
                        >= es0[i].scorer.remaining()[d],
            decreases num_before(self.entries@, window_max as int),
        {
            let ghost before = self.entries@;
            let ghost log0 = self.window.log@;
            let ghost window0 = self.window;
            assert(before[top as int] == es0[top as int]);
            assert(before[top as int].scorer.infallible() || !self.infallible());
            assert forall|d: int| #[trigger]
                es0[top as int].scorer.remaining().dom().contains(d) && window_min <= d
                    < window_max implies {
                &&& self.window.takes(d)
                &&& accept_docs matches Some(bits) ==> d < bits.bit_seq().len()
            } by {
                assert(rem0[top as int].dom().contains(d));
                assert(greatest_scores(rem0).dom().contains(d));
            }
            let next: i32 = self.entries[top].scorer.score(
                &mut self.window,
                accept_docs,
                window_min,
                window_max,
            )?;
            self.entries[top].next = next;
            proof {
                assert(self.window.takes(window_min as int) == window0.takes(window_min as int));
                assert(self.window.takes(self.window.base as int) == window0.takes(
                    self.window.base as int,
                ));
                assert(self.window.takes(window_min - 1) == window0.takes(window_min - 1));
                assert(self.window.base == window_min);
                let after = self.entries@;
                let rem = es0[top as int].scorer.remaining();
                let reported = choose|reported: Map<int, i32>| #[trigger]
                    reports(
                        rem,
                        accept_docs,
                        window_min as int,
                        window_max as int,
                        floor,
                        reported,
                    ) && self.window.collected() == window0.collected() + entries_in(
                        reported,
                        window_min as int,
                        window_max as int,
                    );
                let log = self.window.log@;
                assert(log == log0 + entries_in(reported, window_min as int, window_max as int));
                assert forall|d: int| #[trigger] seen(log, d) implies {
                    &&& window_min <= d < window_max
                    &&& accepts(accept_docs, d)
                    &&& any_has(rem0, d)
                    &&& best(log, d) <= greatest(rem0, d)
                } by {
                    lemma_log_append(log0, reported, window_min as int, window_max as int, d);
                    lemma_greatest(rem0, d);
                    if reported.dom().contains(d) {
                        assert(rem0[top as int].dom().contains(d));
                    }
                    if !seen(log0, d) {
                        lemma_best_unseen(log0, d);
                    }
                }
                assert forall|i: int, d: int|
                    0 <= i < es0.len() && after[i].next >= window_max
                        && #[trigger] es0[i].scorer.remaining().dom().contains(d) && window_min <= d
                        < window_max && accepts(accept_docs, d) && es0[i].scorer.remaining()[d]
                        >= floor implies seen(log, d) && best(log, d)
                    >= es0[i].scorer.remaining()[d] by {
                    lemma_log_append(log0, reported, window_min as int, window_max as int, d);
                    if i == top {
                        assert(reported.dom().contains(d));
                    } else {
                        assert(after[i] == before[i]);
                    }
                }
                lemma_num_before_update(before, top as int, after[top as int], window_max as int);
                assert(after =~= before.update(top as int, after[top as int]));
                lemma_top_moved(self.queue@, before, after);
                sift_down_restores_heap(
                    self.queue@,
                    by_value::<BulkScorerAndNext<S>, ByNext>(after),
                    by_next(after),
                );
                lists_range_bounds(self.queue@, 0, es0.len() as int);
                assert forall|i: int| 0 <= i < after.len() implies entry_inv(#[trigger] after[i]) by {
                    if i == top {
                        assert(nonnegative(es0[i].scorer.remaining()));
                    } else {
                        assert(entry_inv(before[i]));
                    }
                }
                assert(self.infallible() == old(self).infallible()) by {
                    lemma_same_infallible(before, after);
                }
            }
            let ghost queue0 = self.queue@;
            top = match self.queue.update_top(self.entries.as_slice()) {
                Some(t) => t,
                None => 0,
            };
            proof {
                lists_range_permuted(queue0, self.queue@, 0, es0.len() as int);
                assert(self.entries@.len() == self.entries.len());
                lemma_top_is_least(self.queue, self.entries@);
            }
        }
        proof {
            let log = self.window.log@;
            let total = greatest_scores(rem0);
            let found = log_map(log);
            assert forall|d: int| #[trigger] found.dom().contains(d) implies {
                &&& window_min <= d < window_max
                &&& total.dom().contains(d)
                &&& accepts(accept_docs, d)
                &&& 0 <= found[d] <= total[d]
            } by {
                assert(seen(log, d));
                lemma_best_nonnegative(log, d);
            }
            assert forall|d: int| #[trigger]
                total.dom().contains(d) && window_min <= d < window_max && accepts(accept_docs, d)
                    && total[d] >= floor implies found.dom().contains(d) && found[d] == total[d] by {
                assert forall|i: int| 0 <= i < rem0.len() implies #[trigger] nonnegative(
                    rem0[i],
                ) by {
                    assert(entry_inv(es0[i]));
                }
                let i = lemma_greatest_witness(rem0, d);
                assert(es0[i].scorer.remaining().dom().contains(d));
                assert(self.entries@[i].next >= window_max);
            }
            assert forall|i: int| 0 <= i < es0.len() implies {
                &&& (#[trigger] self.entries@[i]).next >= window_max
                &&& self.entries@[i].next >= es0[i].next
                &&& carried(
                    es0[i].scorer.remaining(),
                    self.entries@[i].scorer.remaining(),
                    accept_docs,
                    window_max as int,
                    self.entries@[i].next as int,
                    floor,
                )
            } by {
                if self.entries@[i] == es0[i] {
                    assert(entry_inv(es0[i]));
                }
            }
        }
        Ok(())
    }

    /// Hands the documents of the window to `collector` and empties the window.
    fn replay<C: ScoreCollector>(&mut self, collector: &mut C, window_min: i32, window_max: i32) -> (r:
        Result<(), CollectionError>)
        requires
            old(self).window.consistent(),
            old(self).window.base == window_min,
            old(collector).inv(),
            window_min <= window_max <= window_min + WINDOW_SIZE,
            forall|d: int| #[trigger]
                seen(old(self).window.log@, d) ==> window_min <= d < window_max && old(
                    collector).takes(d),
        ensures
            old(collector).infallible() ==> r is Ok,
            final(collector).infallible() == old(collector).infallible(),
            final(collector).steady() == old(collector).steady(),
            final(collector).floor() >= old(collector).floor(),
            old(collector).steady() ==> final(collector).floor() == old(collector).floor(),
            forall|d: int| #[trigger] final(collector).takes(d) == old(collector).takes(d),
            final(self).entries == old(self).entries,
            final(self).queue == old(self).queue,
            final(self).cost == old(self).cost,
            r matches Err(CollectionError::CollectionTerminated) ==> final(collector).ended(),
            r is Ok ==> {
                &&& final(collector).inv()
                &&& final(collector).ended() == old(collector).ended()
                &&& final(self).window.consistent()
                &&& final(self).window.log@ == Seq::<(int, i32)>::empty()
                &&& final(collector).collected() == old(collector).collected() + entries_in(
                    log_map(old(self).window.log@),
                    window_min as int,
                    window_max as int,
                )
            },
            r is Err ==> exists|end: int|
                window_min <= end <= window_max && final(collector).collected() == old(
                    collector).collected() + #[trigger] entries_in(
                    log_map(old(self).window.log@),
                    window_min as int,
                    end,
                ),
    {
        let ghost log = self.window.log@;
        let ghost found = log_map(log);
        let ghost bits = self.window.matches@;
        let ghost base = window_min as int;
        let ghost mut done: int = 0;
        let mut window_doc: Option<usize> = self.window.matches.next_set_bit(0);
        proof {
            assert(entries_in(found, base, base) =~= Seq::<(int, i32)>::empty());
            assert(collector.collected() =~= old(collector).collected() + entries_in(
                found,
                base,
                base,
            ));
        }
        while window_doc.is_some()
            invariant
                log == old(self).window.log@,
                found == log_map(log),
                self.window.matches@ == bits,
                bits.len() == WINDOW_SIZE + 1,
                base == window_min,
                base >= 0,
                window_min <= window_max <= window_min + WINDOW_SIZE,
                0 <= done <= WINDOW_SIZE + 1,
                self.entries == old(self).entries,
                self.queue == old(self).queue,
                self.cost == old(self).cost,
                self.window.base == window_min,
                self.window.scores@.len() == WINDOW_SIZE,
                forall|x: int|
                    0 <= x <= WINDOW_SIZE ==> #[trigger] bits[x] == (x < WINDOW_SIZE && seen(
                        log,
                        base + x,
                    )),
                forall|x: int|
                    0 <= x < WINDOW_SIZE ==> #[trigger] self.window.scores@[x] == if x < done {
                        0
                    } else {
                        best(log, base + x)
                    },
                forall|d: int| #[trigger]
                    seen(log, d) ==> window_min <= d < window_max && old(collector).takes(d),
                is_next_set_bit(
                    bits,
                    done,
                    (match window_doc {
                        Some(i) => Some(i as int),
                        None => None,
                    }),
                ),
                collector.inv(),
                collector.infallible() == old(collector).infallible(),
                collector.steady() == old(collector).steady(),
                collector.ended() == old(collector).ended(),
                collector.floor() >= old(collector).floor(),
                old(collector).steady() ==> collector.floor() == old(collector).floor(),
                forall|d: int| #[trigger] collector.takes(d) == old(collector).takes(d),
                collector.collected() == old(collector).collected() + entries_in(
                    found,
                    base,
                    base + done,
                ),
            decreases WINDOW_SIZE + 1 - done,
        {
            let x: usize = match window_doc {
                Some(x) => x,
                None => 0,
            };
            assert(bits[x as int]);
            assert(seen(log, base + x));
            let score: i32 = self.window.scores[x];
            self.window.scores[x] = 0;
            assert(old(collector).takes(base + x));
            proof {
                assert forall|d: int| base + done <= d < base + x implies !#[trigger] found.dom().contains(
                    d,
                ) by {
                    assert(!bits[d - base]);
                }
                lemma_entries_step(found, base, base + done, base + x);
                lemma_entries_to(found, base, base + done, base + x);
                let old_entries = old(collector).collected();
                assert(collector.collected() == old_entries + entries_in(found, base, base + x));
                assert(collector.collected().push((base + x, score)) =~= old_entries + entries_in(
                    found,
                    base,
                    base + x + 1,
                ));
            }
            collector.collect(window_min + x as i32, score)?;
            proof {
                assert(collector.collected() =~= old(collector).collected() + entries_in(
                    found,
                    base,
                    base + x + 1,
                ));
                assert forall|y: int| 0 <= y < WINDOW_SIZE implies #[trigger] self.window.scores@[y]
                    == if y < x + 1 {
                    0
                } else {
                    best(log, base + y)
                } by {
                    if done <= y < x {
                        assert(!bits[y]);
                        lemma_best_unseen(log, base + y);
                    }
                }
                done = x + 1;
            }
            window_doc = self.window.matches.next_set_bit(x + 1);
        }
        self.window.matches.clear_all();
        proof {
            assert forall|x: int| 0 <= x < WINDOW_SIZE implies #[trigger] self.window.scores@[x]
                == 0 by {
                if x >= done {
                    assert(!bits[x]);
                    lemma_best_unseen(log, base + x);
                }
            }
            self.window.log@ = Seq::empty();
            let end = window_max as int;
            assert forall|d: int| base + done <= d < end || end <= d < base + done implies !#[trigger] found.dom().contains(
                d) by {
                if base + done <= d < end {
                    assert(!bits[d - base]);
                } else if seen(log, d) {
                    assert(d < end);
                }
            }
            lemma_entries_to(found, base, base + done, end);
        }
        Ok(())
    }

    /// The scorers are intact and the queue is in order.
    spec fn queue_ok(&self) -> bool {
        &&& self.entries@.len() >= 2
        &&& forall|i: int|
            0 <= i < self.entries@.len() ==> entry_inv(#[trigger] self.entries@[i])
        &&& queue_inv(self.queue, self.entries@)
    }
}

/// Ranges that differ by documents without an entry have the same entries.
proof fn lemma_entries_to(m: Map<int, i32>, from: int, a: int, b: int)
    requires
        from <= a,
        from <= b,
        forall|d: int| a <= d < b || b <= d < a ==> !#[trigger] m.dom().contains(d),
    ensures
        entries_in(m, from, a) == entries_in(m, from, b),
{
    let (x, y) = if a <= b {
        (a, b)
    } else {
        (b, a)
    };
    docs_in_split(m.dom(), from, x, y);
    docs_in_none(m.dom(), x, y);
    assert(docs_in(m.dom(), from, y) =~= docs_in(m.dom(), from, x));
}

/// One more entry follows those before it.
proof fn lemma_entries_step(m: Map<int, i32>, from: int, a: int, d: int)
    requires
        from <= a <= d,
        m.dom().contains(d),
        forall|x: int| a <= x < d ==> !#[trigger] m.dom().contains(x),
    ensures
        entries_in(m, from, d + 1) == entries_in(m, from, a).push((d, m[d])),
{
    lemma_entries_to(m, from, a, d);
    assert(entries_in(m, from, d + 1) =~= entries_in(m, from, d).push((d, m[d])));
}

/// What is left of what is left.
proof fn lemma_carried_trans<B: Bits>(
    a: Map<int, i32>,
    b: Map<int, i32>,
    c: Map<int, i32>,
    accept_docs: Option<&B>,
    max1: int,
    next1: int,
    floor1: i32,
    max2: int,
    next2: int,
    floor2: i32,
    floor: i32,
)
    requires
        carried(a, b, accept_docs, max1, next1, floor1),
        carried(b, c, accept_docs, max2, next2, floor2),
        max1 <= max2,
        floor1 <= floor,
        floor2 <= floor,
    ensures
        carried(a, c, accept_docs, max2, next2, floor),
{
    assert forall|d: int| #[trigger] c.dom().contains(d) implies {
        &&& d >= next2
        &&& a.dom().contains(d)
        &&& 0 <= c[d] <= a[d]
    } by {
        assert(b.dom().contains(d));
    }
    assert forall|d: int| #[trigger]
        a.dom().contains(d) && d >= max2 && accepts(accept_docs, d) && a[d] >= floor implies
        c.dom().contains(d) && c[d] == a[d] by {
        assert(b.dom().contains(d));
    }
}

/// What is reported up to `done`, and then of a first part of a window before which nothing is
/// left, is what may be reported up to the end of that part.
proof fn lemma_reports_joined<B: Bits>(
    all: Map<int, i32>,
    now: Map<int, i32>,
    accept_docs: Option<&B>,
    min: int,
    done: int,
    next: int,
    start: int,
    end: int,
    to: int,
    floor0: i32,
    floor: i32,
    reported: Map<int, i32>,
    found: Map<int, i32>,
) -> (joined: Map<int, i32>)
    requires
        min <= done <= start <= end <= to,
        start == min || start == next,
        floor0 <= floor,
        carried(all, now, accept_docs, done, next, floor0),
        reports(all, accept_docs, min, done, floor0, reported),
        reports(now, accept_docs, start, to, floor0, found),
    ensures
        reports(all, accept_docs, min, end, floor, joined),
        entries_in(joined, min, end) == entries_in(reported, min, done) + entries_in(
            found,
            start,
            end,
        ),
        is_report(all, accept_docs, min, end, floor, entries_in(joined, min, end)),
{
    let first = reports_of_first_part(now, accept_docs, start, end, to, floor0, found);
    assert(kept(all, now, accept_docs, done, floor0));
    assert(reports(now, accept_docs, done, end, floor, first));
    reports_of_parts(all, now, accept_docs, min, done, end, floor0, floor, reported, first);
    entries_of_parts(reported, first, min, done, start, end);
    reported.union_prefer_right(first)
}

proof fn lemma_best_unseen(log: Seq<(int, i32)>, d: int)
    requires
        !seen(log, d),
    ensures
        best(log, d) == 0,
    decreases log.len(),
{
    if log.len() > 0 {
        lemma_best_unseen(log.drop_last(), d);
    }
}

/// Before anything is reported, all is left.
proof fn lemma_left_of_all<S: BulkScorer, B: Bits>(
    es: Seq<BulkScorerAndNext<S>>,
    accept_docs: Option<&B>,
    max: int,
    next: int,
    floor: i32,
)
    requires
        forall|i: int| 0 <= i < es.len() ==> entry_inv(#[trigger] es[i]) && es[i].next >= next,
    ensures
        carried(
            greatest_scores(maps(es)),
            greatest_scores(maps(es)),
            accept_docs,
            max,
            next,
            floor,
        ),
{
    let total = greatest_scores(maps(es));
    assert forall|d: int| #[trigger] total.dom().contains(d) implies d >= next && total[d]
        >= 0 by {
        let ms = maps(es);
        lemma_greatest(ms, d);
        let i = choose|i: int| 0 <= i < ms.len() && #[trigger] ms[i].dom().contains(d);
        assert(entry_inv(es[i]));
        assert(es[i].scorer.remaining().dom().contains(d));
    }
}

spec fn all_infallible<S: BulkScorer>(es: Seq<BulkScorerAndNext<S>>) -> bool {
    forall|i: int| 0 <= i < es.len() ==> (#[trigger] es[i]).scorer.infallible()
}

proof fn lemma_same_infallible<S: BulkScorer>(
    a: Seq<BulkScorerAndNext<S>>,
    b: Seq<BulkScorerAndNext<S>>,
)
    requires
        a.len() == b.len(),
        forall|i: int|
            0 <= i < a.len() ==> (#[trigger] b[i]).scorer.infallible()
                == a[i].scorer.infallible(),
    ensures
        all_infallible(a) == all_infallible(b),
{
    if all_infallible(b) {
        assert forall|i: int| 0 <= i < a.len() implies (#[trigger] a[i]).scorer.infallible() by {
            assert(b[i].scorer.infallible());
        }
    }
}

impl<S: BulkScorer> BulkScorer for DisjunctionMaxBulkScorer<S> {
    closed spec fn remaining(&self) -> Map<int, i32> {
        greatest_scores(maps(self.entries@))
    }

    closed spec fn inv(&self) -> bool {
        &&& self.queue_ok()
        &&& self.window.consistent()
        &&& self.window.log@ == Seq::<(int, i32)>::empty()
    }

    closed spec fn infallible(&self) -> bool {
        all_infallible(self.entries@)
    }

    closed spec fn reported_cost(&self) -> i64 {
        self.cost
    }

    closed spec fn last_next(&self) -> int {
        self.entries@[self.queue@[0] as int].next as int
    }

    fn cost(&self) -> (r: i64) {
        self.cost
    }

    fn score<C: ScoreCollector, B: Bits>(
        &mut self,
        collector: &mut C,
        accept_docs: Option<&B>,
        min: i32,
        max: i32,
    ) -> (r: Result<i32, CollectionError>)
        ensures
            r matches Ok(next) ==> {
                &&& final(self).sub_scorers().len() == old(self).sub_scorers().len()
                &&& is_least(final(self).next_docs(), next as int)
            },
    {
        let ghost es0 = self.entries@;
        let ghost total0 = greatest_scores(maps(es0));
        let ghost collected0 = collector.collected();
        let ghost mut reported: Map<int, i32> = Map::empty();
        let ghost mut done: int = min as int;
        let mut top: usize = match self.queue.top() {
            Some(t) => t,
            None => 0,
        };
        proof {
            assert(self.entries@.len() == self.entries.len());
            lemma_top_is_least(self.queue, self.entries@);
            assert(entries_in(reported, min as int, min as int) =~= Seq::<(int, i32)>::empty());
            assert(collected0 + entries_in(reported, min as int, min as int) =~= collected0);
            lemma_left_of_all(es0, accept_docs, min as int, es0[top as int].next as int, collector.floor());
        }
        while self.entries[top].next < max
            invariant
                self.inv(),
                self.infallible() == old(self).infallible(),
                self.cost == old(self).cost,
                self.entries@.len() == old(self).entries@.len(),
                0 <= min <= done <= max,
                total0 == old(self).remaining(),
                collected0 == old(collector).collected(),
                top == self.queue@[0],
                top < self.entries@.len(),
                forall|i: int|
                    0 <= i < self.entries@.len() ==> self.entries@[top as int].next <= (
                    #[trigger] self.entries@[i]).next,
                done == min || self.entries@[top as int].next >= done,
                forall|d: int| #[trigger]
                    total0.dom().contains(d) && min <= d < max ==> {
                        &&& old(collector).takes(d)
                        &&& accept_docs matches Some(bits) ==> d < bits.bit_seq().len()
                    },
                collector.inv(),
                collector.infallible() == old(collector).infallible(),
                collector.steady() == old(collector).steady(),
                collector.ended() == old(collector).ended(),
                collector.floor() >= old(collector).floor(),
                old(collector).steady() ==> collector.floor() == old(collector).floor(),
                forall|d: int| #[trigger] collector.takes(d) == old(collector).takes(d),
                carried(
                    total0,
                    self.remaining(),
                    accept_docs,
                    done,
                    self.entries@[top as int].next as int,
                    collector.floor(),
                ),
                reports(
                    total0,
                    accept_docs,
                    min as int,
                    done,
                    collector.floor(),
                    reported,
                ),
                collector.collected() == collected0 + entries_in(reported, min as int, done),
            decreases
                    if self.entries@[top as int].next < max {
                        max - self.entries@[top as int].next
                    } else {
                        0
                    },
        {
            let ghost es1 = self.entries@;
            let ghost total1 = self.remaining();
            let top_next: i32 = self.entries[top].next;
            let window_min: i32 = if top_next < min {
                min
            } else {
                top_next
            };
            let window_max: i32 = unsigned_min(max, window_min.wrapping_add(WINDOW_SIZE));
            assert(window_min <= window_max <= max);
            assert(window_max <= window_min + WINDOW_SIZE);
            assert(window_min < max ==> window_min < window_max);
            let floor: i32 = collector.min_competitive_score();
            proof {
                assert forall|d: int| #[trigger]
                    total1.dom().contains(d) && window_min <= d < window_max implies {
                    &&& old(collector).takes(d)
                    &&& accept_docs matches Some(bits) ==> d < bits.bit_seq().len()
                } by {
                    assert(total0.dom().contains(d));
                }
                let so_far = entries_in(reported, min as int, done);
                assert(is_report(total0, accept_docs, min as int, done, collector.floor(), so_far));
                assert(is_report_so_far(
                    total0,
                    accept_docs,
                    min as int,
                    max as int,
                    collector.floor(),
                    so_far,
                ));
            }
            self.fill_window(accept_docs, window_min, window_max, floor)?;
            let ghost es2 = self.entries@;
            let ghost found = log_map(self.window.log@);
            proof {
                assert forall|d: int| #[trigger] seen(self.window.log@, d) implies window_min <= d
                    < window_max && collector.takes(d) by {
                    assert(found.dom().contains(d));
                    assert(total1.dom().contains(d));
                    assert(collector.takes(d) == old(collector).takes(d));
                }
            }
            let ghost floor0 = collector.floor();
            let ghost before = collector.collected();
            let replayed = self.replay(collector, window_min, window_max);
            proof {
                if replayed is Err {
                    let end = choose|end: int|
                        window_min <= end <= window_max && collector.collected() == before
                            + #[trigger] entries_in(found, window_min as int, end);
                    lemma_reports_joined(
                        total0,
                        total1,
                        accept_docs,
                        min as int,
                        done,
                        top_next as int,
                        window_min as int,
                        end,
                        window_max as int,
                        floor0,
                        collector.floor(),
                        reported,
                        found,
                    );
                    let so_far = entries_in(reported, min as int, done) + entries_in(
                        found,
                        window_min as int,
                        end,
                    );
                    assert(is_report_so_far(
                        total0,
                        accept_docs,
                        min as int,
                        max as int,
                        collector.floor(),
                        so_far,
                    ));
                    assert(collector.collected() =~= collected0 + so_far);
                }
            }
            replayed?;
            top = match self.queue.top() {
                Some(t) => t,
                None => 0,
            };
            proof {
                assert(self.entries@.len() == self.entries.len());
                lemma_top_is_least(self.queue, self.entries@);
                let next = es2[top as int].next as int;
                let ms1 = maps(es1);
                let ms2 = maps(es2);
                assert forall|i: int| 0 <= i < ms1.len() implies #[trigger] nonnegative(
                    ms1[i],
                ) by {
                    assert(entry_inv(es1[i]));
                }
                assert forall|i: int| 0 <= i < ms1.len() implies carried(
                    ms1[i],
                    #[trigger] ms2[i],
                    accept_docs,
                    window_max as int,
                    next,
                    floor,
                ) by {
                    assert(es2[i].next >= next);
                }
                lemma_carried(ms1, ms2, accept_docs, window_max as int, next, floor);
                lemma_carried_trans(
                    total0,
                    total1,
                    self.remaining(),
                    accept_docs,
                    done,
                    top_next as int,
                    floor0,
                    window_max as int,
                    next,
                    floor,
                    collector.floor(),
                );
                let all = lemma_reports_joined(
                    total0,
                    total1,
                    accept_docs,
                    min as int,
                    done,
                    top_next as int,
                    window_min as int,
                    window_max as int,
                    window_max as int,
                    floor0,
                    collector.floor(),
                    reported,
                    found,
                );
                assert(collector.collected() =~= collected0 + entries_in(
                    all,
                    min as int,
                    window_max as int,
                ));
                reported = all;
                done = window_max as int;
            }
        }
        proof {
            lemma_entries_to(reported, min as int, done, max as int);
            assert forall|d: int| #[trigger]
                total0.dom().contains(d) && min <= d < max && accepts(accept_docs, d) && total0[d]
                    >= collector.floor() implies reported.dom().contains(d) && reported[d]
                == total0[d] by {
                if d >= done {
                    assert(self.remaining().dom().contains(d));
                }
            }
            assert(reports(
                total0,
                accept_docs,
                min as int,
                max as int,
                collector.floor(),
                reported,
            ));
            assert(self.next_docs()[top as int] == self.entries@[top as int].next);
            assert forall|i: int| 0 <= i < self.next_docs().len() implies self.entries@[
            top as int].next <= #[trigger] self.next_docs()[i] by {
                assert(self.entries@[i].next == self.next_docs()[i]);
            }
        }
        Ok(self.entries[top].next)
    }
}

/// A document is scored where one of the clauses scores it, and its score is the greatest of the
/// scores that the clauses give it: none is greater, and one of them gives it. Scores are not
/// negative.
pub proof fn greatest_scores_are_taken(ms: Seq<Map<int, i32>>, d: int)
    requires
        forall|i: int|
            0 <= i < ms.len() && #[trigger] ms[i].dom().contains(d) ==> ms[i][d] >= 0,
    ensures
        greatest_scores(ms).dom().contains(d) <==> exists|i: int|
            0 <= i < ms.len() && #[trigger] ms[i].dom().contains(d),
        forall|i: int|
            0 <= i < ms.len() && #[trigger] ms[i].dom().contains(d) ==> ms[i][d]
                <= greatest_scores(ms)[d],
        greatest_scores(ms).dom().contains(d) ==> exists|i: int|
            0 <= i < ms.len() && #[trigger] ms[i].dom().contains(d) && ms[i][d]
                == greatest_scores(ms)[d],
{
    lemma_greatest(ms, d);
    if greatest_scores(ms).dom().contains(d) && greatest(ms, d) == 0 {
        let i = choose|i: int| 0 <= i < ms.len() && #[trigger] ms[i].dom().contains(d);
        assert(ms[i][d] == 0);
    }
}

} // verus!
