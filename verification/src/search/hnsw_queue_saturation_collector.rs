//! Ends a search for the nearest vectors once hardly any new vectors are collected.

use vstd::prelude::*;

use crate::search::knn::{KnnCollector, KnnSearchStrategy, Patience};
use crate::search::top_docs::{TopDocs, TopDocsView, TotalHits, TotalHitsRelation};

verus! {

/// Counts the candidates of a search at which the queue of vectors is saturated.
#[derive(Debug, Clone, Copy)]
pub struct HnswQueueSaturationState {
    /// How many candidates in a row that find the queue saturated end the search.
    pub patience: i32,
    /// Whether there were as many.
    pub finished: bool,
    /// How many candidates in a row found the queue saturated.
    pub count_saturated: i32,
    /// The number of vectors collected before the last candidate.
    pub previous_queue_size: i32,
    /// The number of vectors collected.
    pub current_queue_size: i32,
}

impl HnswQueueSaturationState {
    /// The counters at the start of a search.
    pub open spec fn initial(patience: i32) -> Self {
        HnswQueueSaturationState {
            patience,
            finished: false,
            count_saturated: 0,
            previous_queue_size: 0,
            current_queue_size: 0,
        }
    }

    /// The counters after a vector is collected.
    pub open spec fn collected(self) -> Self {
        HnswQueueSaturationState {
            current_queue_size: (self.current_queue_size + 1) as i32,
            ..self
        }
    }

    /// The counters after a candidate that found the queue saturated or not.
    pub open spec fn visited(self, saturated: bool) -> Self {
        let count: i32 = if saturated {
            (self.count_saturated + 1) as i32
        } else {
            0
        };
        HnswQueueSaturationState {
            previous_queue_size: self.current_queue_size,
            count_saturated: count,
            finished: self.finished || count >= self.patience,
            ..self
        }
    }

    /// Creates the counters of a search.
    pub fn new(patience: i32) -> (r: Self)
        ensures
            r == Self::initial(patience),
    {
        HnswQueueSaturationState {
            patience,
            finished: false,
            count_saturated: 0,
            previous_queue_size: 0,
            current_queue_size: 0,
        }
    }

    /// Returns whether enough candidates in a row found the queue saturated.
    pub fn patience_finished(&self) -> (r: bool)
        ensures
            r == self.finished,
    {
        self.finished
    }

    /// Returns the two numbers whose quotient says how saturated the queue is: the vectors
    /// that were there at the last candidate, and those that are there now.
    pub fn saturation(&self) -> (r: (i32, i32))
        ensures
            r.0 == if self.current_queue_size < self.previous_queue_size {
                self.current_queue_size
            } else {
                self.previous_queue_size
            },
            r.1 == self.current_queue_size,
    {
        if self.current_queue_size < self.previous_queue_size {
            (self.current_queue_size, self.current_queue_size)
        } else {
            (self.previous_queue_size, self.current_queue_size)
        }
    }

    /// Records that a vector was collected.
    pub fn record_collected(&mut self)
        requires
            old(self).current_queue_size < i32::MAX,
        ensures
            *final(self) == old(self).collected(),
    {
        self.current_queue_size = self.current_queue_size + 1;
    }

    /// Records a candidate. `saturated` says whether the quotient of
    /// [`HnswQueueSaturationState::saturation`] reaches the threshold of the search.
    pub fn next_candidate(&mut self, saturated: bool)
        requires
            saturated ==> old(self).count_saturated < i32::MAX,
        ensures
            *final(self) == old(self).visited(saturated),
    {
        self.previous_queue_size = self.current_queue_size;
        if saturated {
            self.count_saturated = self.count_saturated + 1;
        } else {
            self.count_saturated = 0;
        }
        if self.count_saturated >= self.patience {
            self.finished = true;
        }
    }
}

/// The counters after some candidates without new vectors between them.
pub open spec fn after_candidates(
    state: HnswQueueSaturationState,
    candidates: Seq<bool>,
) -> HnswQueueSaturationState
    decreases candidates.len(),
{
    if candidates.len() == 0 {
        state
    } else {
        after_candidates(state, candidates.drop_last()).visited(candidates.last())
    }
}

/// A search gives up once it has seen as many candidates with a saturated queue, one after the
/// other, as its patience says, and not before.
pub proof fn patience_ends_with_a_run(
    patience: i32,
    candidates: Seq<bool>,
)
    requires
        patience >= 0,
        candidates.len() <= i32::MAX,
    ensures
        after_candidates(HnswQueueSaturationState::initial(patience), candidates).finished <==> (
        exists|end: int|
            0 < end && patience <= end <= candidates.len() && #[trigger] saturated_run(
                candidates,
                end - patience,
                end,
            )),
        after_candidates(
            HnswQueueSaturationState::initial(patience),
            candidates,
        ).count_saturated <= candidates.len(),
{
    lemma_run(patience, candidates);
    let s = after_candidates(HnswQueueSaturationState::initial(patience), candidates);
    if s.finished {
        let end = choose|end: int|
            0 < end && patience <= end <= candidates.len() && #[trigger] saturated_run(
                candidates,
                end - patience,
                end,
            );
        assert(saturated_run(candidates, end - patience, end));
    }
}

/// Every candidate of `[from, to)` finds the queue saturated.
pub open spec fn saturated_run(candidates: Seq<bool>, from: int, to: int) -> bool {
    forall|i: int| from <= i < to ==> #[trigger] candidates[i]
}

/// The counter holds the length of the run of saturated candidates at the end.
proof fn lemma_run(patience: i32, candidates: Seq<bool>)
    requires
        patience >= 0,
        candidates.len() <= i32::MAX,
    ensures
        ({
            let s = after_candidates(HnswQueueSaturationState::initial(patience), candidates);
            let n = candidates.len();
            &&& s.patience == patience
            &&& 0 <= s.count_saturated <= n
            &&& saturated_run(candidates, n - s.count_saturated, n as int)
            &&& s.count_saturated < n ==> !candidates[n - s.count_saturated - 1]
            &&& s.finished <==> (exists|end: int|
                0 < end && patience <= end <= n && #[trigger] saturated_run(
                    candidates,
                    end - patience,
                    end,
                ))
        }),
    decreases candidates.len(),
{
    let n = candidates.len() as int;
    if n > 0 {
        let front = candidates.drop_last();
        lemma_run(patience, front);
        let before = after_candidates(HnswQueueSaturationState::initial(patience), front);
        let s = after_candidates(HnswQueueSaturationState::initial(patience), candidates);
        assert(s == before.visited(candidates.last()));
        if before.finished {
            let end = choose|end: int|
                0 < end && patience <= end <= front.len() && #[trigger] saturated_run(
                    front,
                    end - patience,
                    end,
                );
            assert forall|i: int| end - patience <= i < end implies #[trigger] candidates[i] by {
                assert(front[i]);
            }
            assert(saturated_run(candidates, end - patience, end));
        }
        assert(saturated_run(candidates, n - s.count_saturated, n)) by {
            assert forall|i: int| n - s.count_saturated <= i < n implies #[trigger] candidates[i] by {
                if i < n - 1 {
                    assert(front[i]);
                }
            }
        }
        if s.count_saturated < n {
            if s.count_saturated > 0 {
                assert(!front[n - 1 - before.count_saturated - 1]);
            }
        }
        if s.count_saturated >= patience {
            assert(saturated_run(candidates, n - patience, n)) by {
                assert forall|i: int| n - patience <= i < n implies #[trigger] candidates[i] by {
                    assert(n - s.count_saturated <= i);
                }
            }
        }
        if exists|end: int|
            0 < end && patience <= end <= n && #[trigger] saturated_run(candidates, end - patience, end) {
            let end = choose|end: int|
                0 < end && patience <= end <= n && #[trigger] saturated_run(
                    candidates,
                    end - patience,
                    end,
                );
            if end < n {
                assert forall|i: int| end - patience <= i < end implies #[trigger] front[i] by {
                    assert(candidates[i]);
                }
                assert(saturated_run(front, end - patience, end));
            } else if s.count_saturated < patience {
                assert(candidates[n - s.count_saturated - 1]);
            }
        }
    }
}

/// Gives a strategy that searches a graph the patience of a search; any other strategy
/// stays as it is.
pub open spec fn with_patience(
    strategy: Option<KnnSearchStrategy>,
    counters: u64,
) -> Option<KnnSearchStrategy> {
    match strategy {
        Some(KnnSearchStrategy::Hnsw(hnsw)) => Some(
            KnnSearchStrategy::Patience(Patience { hnsw, counters }),
        ),
        Some(KnnSearchStrategy::Seeded(seeded)) => match *seeded.original {
            KnnSearchStrategy::Hnsw(hnsw) => Some(
                KnnSearchStrategy::Seeded(
                    crate::search::knn::Seeded {
                        original: std::sync::Arc::new(
                            KnnSearchStrategy::Patience(Patience { hnsw, counters }),
                        ),
                        ..seeded
                    },
                ),
            ),
            _ => strategy,
        },
        _ => strategy,
    }
}

/// Collects the nearest vectors through another collector, and ends the search early once
/// enough candidates in a row found the queue saturated.
pub struct HnswQueueSaturationCollector<C: KnnCollector> {
    delegate: C,
    state: HnswQueueSaturationState,
    search_strategy: Option<KnnSearchStrategy>,
}

impl<C: KnnCollector> HnswQueueSaturationCollector<C> {
    /// Creates a collector. `counters` says which counters its strategy speaks of.
    pub fn new(delegate: C, patience: i32, counters: u64) -> (r: Self)
        requires
            delegate.inv(),
        ensures
            r.inv(),
            r.known() == (delegate.known(), HnswQueueSaturationState::initial(patience)),
            r.strategy() == with_patience(delegate.strategy(), counters),
    {
        let search_strategy = Self::patience_strategy(delegate.get_search_strategy(), counters);
        HnswQueueSaturationCollector {
            delegate,
            state: HnswQueueSaturationState::new(patience),
            search_strategy,
        }
    }

    /// Gives a strategy that searches a graph the patience of a search.
    fn patience_strategy(
        delegate_strategy: Option<&KnnSearchStrategy>,
        counters: u64,
    ) -> (r: Option<KnnSearchStrategy>)
        ensures
            r == with_patience(
                match delegate_strategy {
                    Some(s) => Some(*s),
                    None => None,
                },
                counters,
            ),
    {
        match delegate_strategy {
            Some(KnnSearchStrategy::Hnsw(hnsw)) => Some(
                KnnSearchStrategy::Patience(
                    Patience::new(counters, hnsw.filtered_search_threshold()),
                ),
            ),
            Some(KnnSearchStrategy::Seeded(seeded)) => {
                if let KnnSearchStrategy::Hnsw(hnsw) = seeded.original_strategy() {
                    let patience = KnnSearchStrategy::Patience(
                        Patience::new(counters, hnsw.filtered_search_threshold()),
                    );
                    Some(KnnSearchStrategy::Seeded(seeded.with_original_strategy(patience)))
                } else {
                    Some(KnnSearchStrategy::Seeded(seeded.duplicate()))
                }
            },
            Some(KnnSearchStrategy::Patience(patience)) => Some(
                KnnSearchStrategy::Patience(*patience),
            ),
            None => None,
        }
    }

    /// Returns the counters.
    pub fn state(&self) -> (r: &HnswQueueSaturationState)
        ensures
            *r == self.known().1,
    {
        &self.state
    }

    /// Records a candidate.
    pub fn next_candidate(&mut self, saturated: bool)
        requires
            old(self).inv(),
            saturated ==> old(self).known().1.count_saturated < i32::MAX,
        ensures
            final(self).inv(),
            final(self).strategy() == old(self).strategy(),
            final(self).known() == (old(self).known().0, old(self).known().1.visited(saturated)),
    {
        self.state.next_candidate(saturated);
    }
}

impl<C: KnnCollector> KnnCollector for HnswQueueSaturationCollector<C> {
    type State = (C::State, HnswQueueSaturationState);

    closed spec fn known(&self) -> (C::State, HnswQueueSaturationState) {
        (self.delegate.known(), self.state)
    }

    closed spec fn inv(&self) -> bool {
        self.delegate.inv()
    }

    open spec fn takes(
        state: (C::State, HnswQueueSaturationState),
        doc: i32,
        similarity: i32,
    ) -> bool {
        C::takes(state.0, doc, similarity)
    }

    open spec fn offered(
        state: (C::State, HnswQueueSaturationState),
        doc: i32,
        similarity: i32,
    ) -> (C::State, HnswQueueSaturationState) {
        (
            C::offered(state.0, doc, similarity),
            if C::takes(state.0, doc, similarity) {
                state.1.collected()
            } else {
                state.1
            },
        )
    }

    open spec fn countable(state: (C::State, HnswQueueSaturationState)) -> bool {
        C::countable(state.0) && state.1.current_queue_size < i32::MAX
    }

    open spec fn ended_early(state: (C::State, HnswQueueSaturationState)) -> bool {
        C::ended_early(state.0) || state.1.finished
    }

    open spec fn visits(state: (C::State, HnswQueueSaturationState)) -> int {
        C::visits(state.0)
    }

    open spec fn visited(
        state: (C::State, HnswQueueSaturationState),
        count: int,
    ) -> (C::State, HnswQueueSaturationState) {
        (C::visited(state.0, count), state.1)
    }

    open spec fn limit(state: (C::State, HnswQueueSaturationState)) -> int {
        C::limit(state.0)
    }

    open spec fn asked(state: (C::State, HnswQueueSaturationState)) -> int {
        C::asked(state.0)
    }

    open spec fn least_similarity(state: (C::State, HnswQueueSaturationState)) -> i32 {
        C::least_similarity(state.0)
    }

    open spec fn results(state: (C::State, HnswQueueSaturationState)) -> TopDocsView {
        let found = C::results(state.0);
        if state.1.finished && !C::ended_early(state.0) {
            TopDocsView {
                total_hits: TotalHits {
                    value: found.total_hits.value,
                    relation: TotalHitsRelation::EqualTo,
                },
                score_docs: found.score_docs,
            }
        } else {
            found
        }
    }

    open spec fn taken_out(state: (C::State, HnswQueueSaturationState)) -> (
        C::State,
        HnswQueueSaturationState,
    ) {
        (C::taken_out(state.0), state.1)
    }

    closed spec fn strategy(&self) -> Option<KnnSearchStrategy> {
        self.search_strategy
    }

    fn early_terminated(&self) -> (r: bool) {
        self.delegate.early_terminated() || self.state.patience_finished()
    }

    fn inc_visited_count(&mut self, count: i32) {
        self.delegate.inc_visited_count(count);
    }

    fn visited_count(&self) -> (r: i64) {
        self.delegate.visited_count()
    }

    fn visit_limit(&self) -> (r: i64) {
        self.delegate.visit_limit()
    }

    fn k(&self) -> (r: i32) {
        self.delegate.k()
    }

    fn collect(&mut self, doc_id: i32, similarity: i32) -> (r: bool) {
        let collect = self.delegate.collect(doc_id, similarity);
        if collect {
            self.state.record_collected();
        }
        collect
    }

    fn min_competitive_similarity(&self) -> (r: i32) {
        self.delegate.min_competitive_similarity()
    }

    fn top_docs(&mut self) -> (r: TopDocs) {
        let exhausted = self.state.patience_finished() && !self.delegate.early_terminated();
        let found = self.delegate.top_docs();
        if exhausted {
            TopDocs {
                total_hits: TotalHits {
                    value: found.total_hits.value,
                    relation: TotalHitsRelation::EqualTo,
                },
                score_docs: found.score_docs,
            }
        } else {
            found
        }
    }

    fn get_search_strategy(&self) -> (r: Option<&KnnSearchStrategy>) {
        self.search_strategy.as_ref()
    }
}

} // verus!
