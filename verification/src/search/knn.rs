//! Searches for the nearest vectors: how they are searched for, and how they are
//! collected.

use std::sync::Arc;

use vstd::multiset::Multiset;
use vstd::prelude::*;
use vstd::string::*;

use crate::error::LuceneError;
use crate::search::hit_queue::{hit_order, not_better, HitQueue, HitQueueComparator, WORST_SCORE};
use crate::search::index_searcher::ScoreDoc;
use crate::search::top_docs::{TopDocs, TopDocsView, TotalHits, TotalHitsRelation};
use crate::util::heap::{heap_root_is_least, is_heap, refines, sift_up};
use crate::util::priority_queue::{drained, drained_is_sorted, operations_keep_items, replaced};
use crate::util::sort::{descending, is_stable_order, stable_order};
use crate::util::text::{append_signed, decimal_int};

verus! {

/// The percentage of passing vectors below which filtered search is used, unless
/// another one is given.
pub const DEFAULT_FILTERED_SEARCH_THRESHOLD: i32 = 0;

/// Searches a graph.
#[derive(Debug, Clone, Copy, PartialEq, Eq, Hash, Structural)]
pub struct Hnsw {
    /// The percentage of passing vectors below which filtered search is used.
    pub threshold: i32,
}

impl Hnsw {
    /// Creates a strategy. With a threshold of 0 filtered search is never used.
    ///
    /// # Errors
    ///
    /// [`LuceneError::IllegalArgument`] when the threshold is no percentage.
    pub fn new(filtered_search_threshold: i32) -> (r: Result<Self, LuceneError>)
        ensures
            r is Ok <==> 0 <= filtered_search_threshold <= 100,
            r matches Ok(h) ==> h == (Hnsw { threshold: filtered_search_threshold }),
            r matches Err(e) ==> e.is_illegal_argument(
                "filteredSearchThreshold must be >= 0 and <= 100"@,
            ),
    {
        if filtered_search_threshold < 0 || filtered_search_threshold > 100 {
            return Err(
                LuceneError::IllegalArgument(
                    "filteredSearchThreshold must be >= 0 and <= 100".to_owned(),
                ),
            );
        }
        Ok(Hnsw { threshold: filtered_search_threshold })
    }

    /// Returns the percentage of passing vectors below which filtered search is used.
    pub fn filtered_search_threshold(&self) -> (r: i32)
        ensures
            r == self.threshold,
    {
        self.threshold
    }
}

/// Which iterator over documents a search starts at. No two iterators have the same number.
#[derive(Debug, Clone, Copy, PartialEq, Eq, Hash, Structural)]
pub enum EntryPoints {
    /// The iterator that was given.
    Given(u64),
    /// None was given; the strategy has an iterator of its own, without documents.
    Missing(u64),
}

/// Starts a search at given documents.
#[derive(Debug, Clone)]
pub struct Seeded {
    /// Which iterator over documents to start at.
    pub points: EntryPoints,
    /// The number of documents to start at.
    pub count: i32,
    /// How to go on.
    pub original: Arc<KnnSearchStrategy>,
}

impl Seeded {
    /// Creates a strategy.
    ///
    /// # Errors
    ///
    /// [`LuceneError::IllegalArgument`] when the number of documents is negative, or
    /// when it is positive and there are no documents.
    pub fn new(
        entry_points: EntryPoints,
        number_of_entry_points: i32,
        original_strategy: KnnSearchStrategy,
    ) -> (r: Result<Self, LuceneError>)
        ensures
            r is Ok <==> number_of_entry_points == 0 || (number_of_entry_points > 0
                && entry_points is Given),
            r matches Ok(s) ==> s.points == entry_points && s.count == number_of_entry_points
                && *s.original == original_strategy,
            r matches Err(e) ==> e.is_illegal_argument(
                if number_of_entry_points < 0 {
                    "numberOfEntryPoints must be >= 0"@
                } else {
                    "entryPoints must not be null"@
                },
            ),
    {
        if number_of_entry_points < 0 {
            return Err(LuceneError::IllegalArgument("numberOfEntryPoints must be >= 0".to_owned()));
        }
        if number_of_entry_points > 0 && matches!(entry_points, EntryPoints::Missing(_)) {
            return Err(LuceneError::IllegalArgument("entryPoints must not be null".to_owned()));
        }
        Ok(
            Seeded {
                points: entry_points,
                count: number_of_entry_points,
                original: Arc::new(original_strategy),
            },
        )
    }

    /// Returns which iterator over documents to start at.
    pub fn entry_points(&self) -> (r: EntryPoints)
        ensures
            r == self.points,
    {
        self.points
    }

    /// Returns the number of documents to start at.
    pub fn number_of_entry_points(&self) -> (r: i32)
        ensures
            r == self.count,
    {
        self.count
    }

    /// Returns how to go on.
    pub fn original_strategy(&self) -> (r: &KnnSearchStrategy)
        ensures
            *r == *self.original,
    {
        &*self.original
    }

    /// Returns a strategy that does the same.
    pub fn duplicate(&self) -> (r: Self)
        ensures
            r == *self,
        decreases self,
    {
        Seeded {
            points: self.points,
            count: self.count,
            original: Arc::new(self.original.duplicate()),
        }
    }

    /// Returns a strategy that starts at the same documents and goes on otherwise.
    pub fn with_original_strategy(&self, original_strategy: KnnSearchStrategy) -> (r: Self)
        ensures
            r.points == self.points,
            r.count == self.count,
            *r.original == original_strategy,
    {
        Seeded {
            points: self.points,
            count: self.count,
            original: Arc::new(original_strategy),
        }
    }
}

/// Searches a graph, and gives up when hardly any new vectors are found.
#[derive(Debug, Clone, Copy, PartialEq, Eq, Hash, Structural)]
pub struct Patience {
    /// How the graph is searched.
    pub hnsw: Hnsw,
    /// Which counters tell when to give up.
    pub counters: u64,
}

impl Patience {
    /// Creates a strategy.
    pub fn new(state: u64, filtered_search_threshold: i32) -> (r: Self)
        ensures
            r == (Patience {
                hnsw: Hnsw { threshold: filtered_search_threshold },
                counters: state,
            }),
    {
        Patience { hnsw: Hnsw { threshold: filtered_search_threshold }, counters: state }
    }

    /// Returns the percentage of passing vectors below which filtered search is used.
    pub fn filtered_search_threshold(&self) -> (r: i32)
        ensures
            r == self.hnsw.threshold,
    {
        self.hnsw.filtered_search_threshold()
    }

    /// Returns which counters tell when to give up.
    pub fn state(&self) -> (r: u64)
        ensures
            r == self.counters,
    {
        self.counters
    }
}

/// How nearest vectors are searched for.
#[derive(Debug, Clone)]
pub enum KnnSearchStrategy {
    /// Search a graph.
    Hnsw(Hnsw),
    /// Start at given documents.
    Seeded(Seeded),
    /// Search a graph, and give up when hardly any new vectors are found.
    Patience(Patience),
}

impl KnnSearchStrategy {
    /// The counters that are told of each block of vectors.
    pub open spec fn told_counters(&self) -> Option<u64>
        decreases self,
    {
        match *self {
            KnnSearchStrategy::Hnsw(_) => None,
            KnnSearchStrategy::Seeded(seeded) => seeded.original.told_counters(),
            KnnSearchStrategy::Patience(patience) => Some(patience.counters),
        }
    }

    /// Returns the strategy that is used unless another one is given.
    pub fn hnsw_default() -> (r: Self)
        ensures
            r == KnnSearchStrategy::Hnsw(Hnsw { threshold: DEFAULT_FILTERED_SEARCH_THRESHOLD }),
    {
        KnnSearchStrategy::Hnsw(Hnsw { threshold: DEFAULT_FILTERED_SEARCH_THRESHOLD })
    }

    /// Returns which counters are to record a candidate as the next block of vectors is
    /// processed; `None` when nothing is recorded.
    pub fn next_vectors_block(&self) -> (r: Option<u64>)
        ensures
            r == self.told_counters(),
        decreases self,
    {
        match self {
            KnnSearchStrategy::Hnsw(_) => None,
            KnnSearchStrategy::Seeded(seeded) => seeded.original.next_vectors_block(),
            KnnSearchStrategy::Patience(patience) => Some(patience.state()),
        }
    }

    /// Returns the percentage of passing vectors below which filtered search is used;
    /// `None` for strategies that start at given documents.
    pub fn filtered_search_threshold(&self) -> (r: Option<i32>)
        ensures
            r == match *self {
                KnnSearchStrategy::Hnsw(hnsw) => Some(hnsw.threshold),
                KnnSearchStrategy::Seeded(_) => None,
                KnnSearchStrategy::Patience(patience) => Some(patience.hnsw.threshold),
            },
    {
        match self {
            KnnSearchStrategy::Hnsw(hnsw) => Some(hnsw.filtered_search_threshold()),
            KnnSearchStrategy::Seeded(_) => None,
            KnnSearchStrategy::Patience(patience) => Some(patience.filtered_search_threshold()),
        }
    }

    /// Returns a strategy that does the same.
    pub fn duplicate(&self) -> (r: Self)
        ensures
            r == *self,
        decreases self,
    {
        match self {
            KnnSearchStrategy::Hnsw(hnsw) => KnnSearchStrategy::Hnsw(*hnsw),
            KnnSearchStrategy::Seeded(seeded) => KnnSearchStrategy::Seeded(seeded.duplicate()),
            KnnSearchStrategy::Patience(patience) => KnnSearchStrategy::Patience(*patience),
        }
    }

    /// Returns whether two strategies are of the same kind with the same parameters. Strategies
    /// that start at different iterators differ, also when both are without documents.
    pub fn same_strategy(&self, other: &Self) -> (r: bool)
        ensures
            r == (*self == *other),
        decreases self,
    {
        match (self, other) {
            (KnnSearchStrategy::Hnsw(a), KnnSearchStrategy::Hnsw(b)) => *a == *b,
            (KnnSearchStrategy::Seeded(a), KnnSearchStrategy::Seeded(b)) => {
                a.count == b.count && a.points == b.points && a.original.same_strategy(
                    &*b.original,
                )
            },
            (KnnSearchStrategy::Patience(a), KnnSearchStrategy::Patience(b)) => *a == *b,
            _ => false,
        }
    }
}

impl PartialEq for KnnSearchStrategy {
    fn eq(&self, other: &Self) -> (r: bool) {
        self.same_strategy(other)
    }
}

impl vstd::std_specs::cmp::PartialEqSpecImpl for KnnSearchStrategy {
    open spec fn obeys_eq_spec() -> bool {
        true
    }

    open spec fn eq_spec(&self, other: &Self) -> bool {
        *self == *other
    }
}

impl Eq for KnnSearchStrategy {

}

/// Collects the nearest vectors of a search.
pub trait KnnCollector {
    /// What the collector knows.
    type State;

    /// What the collector knows now.
    spec fn known(&self) -> Self::State;

    /// The internal invariant of the collector.
    spec fn inv(&self) -> bool;

    /// Whether a vector is collected.
    spec fn takes(state: Self::State, doc: i32, similarity: i32) -> bool;

    /// What is known after a vector is offered.
    spec fn offered(state: Self::State, doc: i32, similarity: i32) -> Self::State;

    /// Whether one more vector can be counted.
    spec fn countable(state: Self::State) -> bool;

    /// Whether the search visited too many vectors.
    spec fn ended_early(state: Self::State) -> bool;

    /// The number of vectors that were visited.
    spec fn visits(state: Self::State) -> int;

    /// What is known after some vectors are visited.
    spec fn visited(state: Self::State, count: int) -> Self::State;

    /// The number of vectors that may be visited.
    spec fn limit(state: Self::State) -> int;

    /// The number of vectors that are asked for.
    spec fn asked(state: Self::State) -> int;

    /// The least similarity that is of interest.
    spec fn least_similarity(state: Self::State) -> i32;

    /// The vectors that were collected.
    spec fn results(state: Self::State) -> TopDocsView;

    /// What is known after the vectors that were collected are taken out.
    spec fn taken_out(state: Self::State) -> Self::State;

    /// The strategy of the search.
    spec fn strategy(&self) -> Option<KnnSearchStrategy>;

    /// Returns whether the search visited too many vectors; the nearest vectors are then
    /// not known.
    fn early_terminated(&self) -> (r: bool)
        requires
            self.inv(),
        ensures
            r == Self::ended_early(self.known()),
    ;

    /// Records that vectors were visited.
    fn inc_visited_count(&mut self, count: i32)
        requires
            old(self).inv(),
            count >= 0,
            Self::visits(old(self).known()) + count <= i64::MAX,
        ensures
            final(self).inv(),
            final(self).known() == Self::visited(old(self).known(), count as int),
            final(self).strategy() == old(self).strategy(),
    ;

    /// Returns the number of vectors that were visited.
    fn visited_count(&self) -> (r: i64)
        requires
            self.inv(),
        ensures
            r == Self::visits(self.known()),
    ;

    /// Returns the number of vectors that may be visited.
    fn visit_limit(&self) -> (r: i64)
        requires
            self.inv(),
        ensures
            r == Self::limit(self.known()),
    ;

    /// Returns the number of vectors that are asked for.
    fn k(&self) -> (r: i32)
        requires
            self.inv(),
        ensures
            r == Self::asked(self.known()),
    ;

    /// Offers a vector, and returns whether it is collected.
    fn collect(&mut self, doc_id: i32, similarity: i32) -> (r: bool)
        requires
            old(self).inv(),
            Self::countable(old(self).known()),
        ensures
            final(self).inv(),
            r == Self::takes(old(self).known(), doc_id, similarity),
            final(self).known() == Self::offered(old(self).known(), doc_id, similarity),
            final(self).strategy() == old(self).strategy(),
    ;

    /// Returns the least similarity that is of interest.
    fn min_competitive_similarity(&self) -> (r: i32)
        requires
            self.inv(),
        ensures
            r == Self::least_similarity(self.known()),
    ;

    /// Takes out the vectors that were collected, the nearest one first.
    fn top_docs(&mut self) -> (r: TopDocs)
        requires
            old(self).inv(),
        ensures
            final(self).inv(),
            r@ == Self::results(old(self).known()),
            final(self).known() == Self::taken_out(old(self).known()),
            final(self).strategy() == old(self).strategy(),
    ;

    /// Returns the strategy of the search, if any is given.
    fn get_search_strategy(&self) -> (r: Option<&KnnSearchStrategy>)
        requires
            self.inv(),
        ensures
            r is Some <==> self.strategy() is Some,
            r matches Some(s) ==> *s == self.strategy()->0,
    ;
}

/// What a [`TopKnnCollector`] knows.
#[verifier::ext_equal]
pub struct Nearest {
    /// The vectors, in the order of the heap.
    pub heap: Seq<ScoreDoc>,
    /// The number of vectors that are asked for.
    pub k: int,
    /// The number of vectors that may be visited.
    pub limit: int,
    /// The number of vectors that were visited.
    pub visits: int,
}

/// The hit that stands for a vector.
pub open spec fn neighbor(doc: i32, similarity: i32) -> ScoreDoc {
    ScoreDoc { doc, score: similarity, shard_index: -1i32 }
}

/// A sequence from its end to its start.
pub open spec fn reversed<T>(s: Seq<T>) -> Seq<T> {
    Seq::new(s.len(), |i: int| s[s.len() - 1 - i])
}

/// The keys by which vectors are sorted, the most similar ones first.
pub open spec fn similarity_keys(hits: Seq<ScoreDoc>) -> Seq<(i64, i64)> {
    Seq::new(hits.len(), |i: int| ((-1 - hits[i].score) as i64, 0i64))
}

/// `order` sorts the hits, the most similar ones first, and `pairs` lists their documents
/// and similarities in that order.
pub open spec fn lists_by_similarity(
    hits: Seq<ScoreDoc>,
    order: Seq<usize>,
    pairs: Seq<(i32, i32)>,
) -> bool {
    &&& is_stable_order(similarity_keys(hits), hits.len() as int, order)
    &&& pairs.len() == hits.len()
    &&& forall|i: int|
        0 <= i < hits.len() ==> #[trigger] pairs[i] == (
            hits[order[i] as int].doc,
            hits[order[i] as int].score,
        )
}

/// Collects the `k` nearest vectors.
pub struct TopKnnCollector {
    queue: HitQueue,
    k: i32,
    visit_limit: i64,
    visited_count: i64,
    search_strategy: Option<KnnSearchStrategy>,
}

impl TopKnnCollector {
    /// Creates a collector for a search without a strategy.
    pub fn new(k: i32, visit_limit: i64) -> (r: Self)
        requires
            k > 0,
            2 * k <= usize::MAX,
        ensures
            r.inv(),
            r.known() == (Nearest {
                heap: Seq::empty(),
                k: k as int,
                limit: visit_limit as int,
                visits: 0,
            }),
            r.strategy() is None,
    {
        Self::with_strategy(k, visit_limit, None)
    }

    /// Creates a collector for a search with a strategy.
    pub fn with_strategy(
        k: i32,
        visit_limit: i64,
        search_strategy: Option<KnnSearchStrategy>,
    ) -> (r: Self)
        requires
            k > 0,
            2 * k <= usize::MAX,
        ensures
            r.inv(),
            r.known() == (Nearest {
                heap: Seq::empty(),
                k: k as int,
                limit: visit_limit as int,
                visits: 0,
            }),
            r.strategy() == search_strategy,
    {
        let queue = HitQueue::new(k as usize, false).unwrap();
        TopKnnCollector { queue, k, visit_limit, visited_count: 0, search_strategy }
    }

    /// Returns the vectors that were collected and their similarities, the most similar
    /// one first; of those with the same similarity the greater document is first.
    pub fn top_docs_with_scores(&self) -> (r: Vec<(i32, i32)>)
        requires
            self.inv(),
        ensures
            exists|order: Seq<usize>| #[trigger]
                lists_by_similarity(
                    drained(self.known().heap, hit_order(), self.known().heap.len()),
                    order,
                    r@,
                ),
    {
        let mut queue = self.queue.duplicate();
        let out = drain(&mut queue);
        let ghost hits = drained(self.known().heap, hit_order(), self.known().heap.len());
        assert(out@ == hits);
        let n: usize = out.len();
        let mut keys: Vec<(i64, i64)> = Vec::with_capacity(n);
        let mut i: usize = 0;
        while i < n
            invariant
                i <= n == out@.len(),
                keys@.len() == i,
                forall|j: int| 0 <= j < i ==> #[trigger] keys@[j] == similarity_keys(out@)[j],
            decreases n - i,
        {
            keys.push((descending(out[i].score as i64), 0));
            i += 1;
        }
        assert(keys@ =~= similarity_keys(out@));
        let order = stable_order(&keys);
        let mut results: Vec<(i32, i32)> = Vec::with_capacity(n);
        let mut j: usize = 0;
        while j < n
            invariant
                j <= n == out@.len(),
                is_stable_order(similarity_keys(out@), n as int, order@),
                results@.len() == j,
                forall|i: int|
                    0 <= i < j ==> #[trigger] results@[i] == (
                        out@[order@[i] as int].doc,
                        out@[order@[i] as int].score,
                    ),
            decreases n - j,
        {
            let hit = out[order[j]];
            results.push((hit.doc, hit.score));
            j += 1;
        }
        assert(lists_by_similarity(hits, order@, results@));
        results
    }

    /// Returns the documents of the vectors that were collected.
    pub fn nodes(&self) -> (r: Vec<i32>)
        requires
            self.inv(),
        ensures
            r@ == Seq::new(self.known().heap.len(), |i: int| self.known().heap[i].doc),
    {
        let n: usize = self.queue.size();
        let mut docs: Vec<i32> = Vec::with_capacity(n);
        let mut i: usize = 0;
        while i < n
            invariant
                self.inv(),
                i <= n == self.known().heap.len(),
                docs@ =~= Seq::new(i as nat, |j: int| self.known().heap[j].doc),
            decreases n - i,
        {
            docs.push(self.queue.hit_at(i).doc);
            i += 1;
        }
        docs
    }

    /// Returns the number of vectors that were collected.
    pub fn num_collected(&self) -> (r: i32)
        requires
            self.inv(),
        ensures
            r == self.known().heap.len(),
    {
        proof {
            self.queue.size_is_bounded();
        }
        self.queue.size() as i32
    }

    /// Renders the collector.
    pub fn to_text(&self) -> (r: String)
        requires
            self.inv(),
        ensures
            r@ == "TopKnnCollector[k="@ + decimal_int(self.known().k) + ", size="@ + decimal_int(
                self.known().heap.len() as int,
            ) + "]"@,
    {
        let mut out = "TopKnnCollector[k=".to_owned();
        append_signed(&mut out, self.k as i64);
        out.append(", size=");
        let size: i32 = self.num_collected();
        append_signed(&mut out, size as i64);
        out.append("]");
        out
    }

    /// The nearest vectors come out first, and each vector once.
    pub proof fn nearest_come_first(&self, i: int, j: int)
        requires
            self.inv(),
            0 <= i <= j < self.known().heap.len(),
        ensures
            ({
                let out = Self::results(self.known()).score_docs;
                &&& out.len() == self.known().heap.len()
                &&& !HitQueueComparator::worse(out[i], out[j])
                &&& out[i].score >= out[j].score
            }),
    {
        let n = self.known().heap.len();
        self.queue.hits_leave_in_order(n - 1 - j, n - 1 - i);
    }
}

/// Removes all hits, and returns them in the order in which they leave.
fn drain(queue: &mut HitQueue) -> (r: Vec<ScoreDoc>)
    requires
        old(queue).wf(),
    ensures
        final(queue).wf(),
        final(queue).capacity() == old(queue).capacity(),
        final(queue).heap() == Seq::<ScoreDoc>::empty(),
        r@ == drained(old(queue).heap(), hit_order(), old(queue).heap().len()),
        r@.len() == old(queue).heap().len(),
{
    let ghost all = queue.heap();
    let mut out: Vec<ScoreDoc> = Vec::new();
    let n: usize = queue.size();
    let mut i: usize = 0;
    while i < n
        invariant
            queue.wf(),
            queue.capacity() == old(queue).capacity(),
            i <= n == all.len(),
            queue.heap().len() == n - i,
            out@.len() == i,
            out@ + drained(queue.heap(), hit_order(), (n - i) as nat) =~= drained(
                all,
                hit_order(),
                n as nat,
            ),
        decreases n - i,
    {
        let ghost before = queue.heap();
        let ghost sofar = out@;
        proof {
            queue.popped_len();
        }
        if let Some(hit) = queue.pop() {
            out.push(hit);
        }
        assert(drained(before, hit_order(), (n - i) as nat) =~= seq![before[0]] + drained(
            queue.heap(),
            hit_order(),
            (n - i - 1) as nat,
        ));
        assert(out@ =~= sofar.push(before[0]));
        i += 1;
    }
    assert(drained(queue.heap(), hit_order(), 0) =~= Seq::empty());
    out
}

impl KnnCollector for TopKnnCollector {
    type State = Nearest;

    closed spec fn known(&self) -> Nearest {
        Nearest {
            heap: self.queue.heap(),
            k: self.k as int,
            limit: self.visit_limit as int,
            visits: self.visited_count as int,
        }
    }

    closed spec fn inv(&self) -> bool {
        &&& self.queue.wf()
        &&& self.queue.capacity() == self.k
        &&& self.k > 0
        &&& self.visited_count >= 0
    }

    open spec fn takes(state: Nearest, doc: i32, similarity: i32) -> bool {
        state.heap.len() < state.k || !HitQueueComparator::worse(
            neighbor(doc, similarity),
            state.heap[0],
        )
    }

    open spec fn offered(state: Nearest, doc: i32, similarity: i32) -> Nearest {
        let hit = neighbor(doc, similarity);
        Nearest {
            heap: if state.heap.len() < state.k {
                sift_up(state.heap.push(hit), hit_order(), state.heap.len() as int)
            } else if HitQueueComparator::worse(state.heap[0], hit) {
                replaced(state.heap, hit_order(), hit)
            } else {
                state.heap
            },
            ..state
        }
    }

    open spec fn countable(state: Nearest) -> bool {
        true
    }

    open spec fn ended_early(state: Nearest) -> bool {
        state.visits >= state.limit
    }

    open spec fn visits(state: Nearest) -> int {
        state.visits
    }

    open spec fn visited(state: Nearest, count: int) -> Nearest {
        Nearest { visits: state.visits + count, ..state }
    }

    open spec fn limit(state: Nearest) -> int {
        state.limit
    }

    open spec fn asked(state: Nearest) -> int {
        state.k
    }

    open spec fn least_similarity(state: Nearest) -> i32 {
        if state.heap.len() >= state.k {
            state.heap[0].score
        } else {
            WORST_SCORE
        }
    }

    open spec fn taken_out(state: Nearest) -> Nearest {
        Nearest { heap: Seq::empty(), ..state }
    }

    open spec fn results(state: Nearest) -> TopDocsView {
        TopDocsView {
            total_hits: TotalHits {
                value: state.visits as i64,
                relation: if state.visits >= state.limit {
                    TotalHitsRelation::GreaterThanOrEqualTo
                } else {
                    TotalHitsRelation::EqualTo
                },
            },
            score_docs: reversed(
                Seq::new(
                    state.heap.len(),
                    |i: int|
                        neighbor(
                            drained(state.heap, hit_order(), state.heap.len())[i].doc,
                            drained(state.heap, hit_order(), state.heap.len())[i].score,
                        ),
                ),
            ),
        }
    }

    closed spec fn strategy(&self) -> Option<KnnSearchStrategy> {
        self.search_strategy
    }

    fn early_terminated(&self) -> (r: bool) {
        self.visited_count >= self.visit_limit
    }

    fn inc_visited_count(&mut self, count: i32) {
        self.visited_count = self.visited_count + count as i64;
    }

    fn visited_count(&self) -> (r: i64) {
        self.visited_count
    }

    fn visit_limit(&self) -> (r: i64) {
        self.visit_limit
    }

    fn k(&self) -> (r: i32) {
        self.k
    }

    fn collect(&mut self, doc_id: i32, similarity: i32) -> (r: bool) {
        let hit = ScoreDoc { doc: doc_id, score: similarity, shard_index: -1 };
        let collected = match self.queue.top() {
            Some(top) => self.queue.size() < self.k as usize || !HitQueueComparator::less_than(
                &hit,
                &top,
            ),
            None => true,
        };
        let _left_out = self.queue.insert_with_overflow(hit);
        collected
    }

    fn min_competitive_similarity(&self) -> (r: i32) {
        if self.queue.size() >= self.k as usize {
            match self.queue.top() {
                Some(top) => top.score,
                None => WORST_SCORE,
            }
        } else {
            WORST_SCORE
        }
    }

    fn top_docs(&mut self) -> (r: TopDocs) {
        let relation = if self.early_terminated() {
            TotalHitsRelation::GreaterThanOrEqualTo
        } else {
            TotalHitsRelation::EqualTo
        };
        let out = drain(&mut self.queue);
        let n: usize = out.len();
        let mut score_docs: Vec<ScoreDoc> = Vec::with_capacity(n);
        let mut i: usize = n;
        while i > 0
            invariant
                i <= n == out@.len(),
                score_docs@.len() == n - i,
                forall|j: int|
                    0 <= j < n - i ==> #[trigger] score_docs@[j] == neighbor(
                        out@[n - 1 - j].doc,
                        out@[n - 1 - j].score,
                    ),
            decreases i,
        {
            i -= 1;
            score_docs.push(ScoreDoc { doc: out[i].doc, score: out[i].score, shard_index: -1 });
        }
        assert(score_docs@ =~= Self::results(old(self).known()).score_docs);
        TopDocs { total_hits: TotalHits { value: self.visited_count, relation }, score_docs }
    }

    fn get_search_strategy(&self) -> (r: Option<&KnnSearchStrategy>) {
        self.search_strategy.as_ref()
    }
}

/// What a collector knows after it was offered vectors, each with its similarity, one after the
/// other.
pub open spec fn known_after(state: Nearest, offers: Seq<(i32, i32)>) -> Nearest
    decreases offers.len(),
{
    if offers.len() == 0 {
        state
    } else {
        <TopKnnCollector as KnnCollector>::offered(
            known_after(state, offers.drop_last()),
            offers.last().0,
            offers.last().1,
        )
    }
}

/// Offering a vector keeps all vectors but the worst one, which leaves when there is no room.
proof fn lemma_offered(state: Nearest, doc: i32, similarity: i32)
    requires
        is_heap(state.heap, not_better()),
        state.heap.len() <= state.k,
        state.k > 0,
    ensures
        ({
            let hit = ScoreDoc { doc, score: similarity, shard_index: -1i32 };
            let after = <TopKnnCollector as KnnCollector>::offered(state, doc, similarity);
            let all = state.heap.to_multiset().insert(hit);
            &&& is_heap(after.heap, not_better())
            &&& after.k == state.k
            &&& after.limit == state.limit
            &&& after.visits == state.visits
            &&& state.heap.len() < state.k ==> after.heap.len() == state.heap.len() + 1
                && after.heap.to_multiset() == all
            &&& state.heap.len() == state.k ==> after.heap.len() == state.k && exists|out: ScoreDoc|
                all.count(out) > 0 && #[trigger] all.remove(out) == after.heap.to_multiset()
                    && forall|h: ScoreDoc| #[trigger]
                    all.count(h) > 0 ==> out.score < h.score || (out.score == h.score && out.doc
                        >= h.doc)
            &&& <TopKnnCollector as KnnCollector>::takes(state, doc, similarity) <==> exists|
                h: ScoreDoc,
            | #[trigger]
                after.heap.to_multiset().count(h) > 0 && h.doc == doc && h.score == similarity
        }),
{
    broadcast use vstd::seq_lib::group_to_multiset_ensures;
    broadcast use vstd::multiset::group_multiset_axioms;

    let hit = ScoreDoc { doc, score: similarity, shard_index: -1i32 };
    let s = state.heap;
    let after = <TopKnnCollector as KnnCollector>::offered(state, doc, similarity);
    let all = s.to_multiset().insert(hit);
    assert(refines(hit_order(), not_better()));
    operations_keep_items(s, hit_order(), not_better(), hit);
    assert(hit == neighbor(doc, similarity));
    assert(after.heap.len() == after.heap.to_multiset().len());
    assert(s.len() == s.to_multiset().len());
    assert forall|h: ScoreDoc| #[trigger] s.to_multiset().count(h) > 0 implies !HitQueueComparator::worse(
        h,
        s[0],
    ) by {
        assert(s.contains(h));
        let i = choose|i: int| 0 <= i < s.len() && s[i] == h;
        heap_root_is_least(s, not_better(), i);
    }
    if s.len() < state.k {
        assert(after.heap.to_multiset().count(hit) > 0);
    }
    if s.len() == state.k {
        assert(s.contains(s[0]));
        if !HitQueueComparator::worse(hit, s[0]) {
            let kept = if HitQueueComparator::worse(s[0], hit) {
                hit
            } else {
                s[0]
            };
            assert(after.heap.to_multiset().count(kept) > 0);
        } else {
            assert forall|h: ScoreDoc| #[trigger]
                after.heap.to_multiset().count(h) > 0 implies h.doc != doc || h.score
                != similarity by {
                assert(s.to_multiset().count(h) > 0);
            }
        }
        let out = if HitQueueComparator::worse(s[0], hit) {
            s[0]
        } else {
            hit
        };
        assert(all.count(out) > 0);
        assert(all.remove(out) =~= after.heap.to_multiset());
        assert forall|h: ScoreDoc| #[trigger] all.count(h) > 0 implies out.score < h.score || (
        out.score == h.score && out.doc >= h.doc) by {
            if h != hit {
                assert(s.to_multiset().count(h) > 0);
            }
        }
    }
}

/// The vectors of a sequence are those of it from its end to its start.
proof fn lemma_reversed_multiset<T>(s: Seq<T>)
    ensures
        reversed(s).to_multiset() == s.to_multiset(),
    decreases s.len(),
{
    broadcast use vstd::seq_lib::group_to_multiset_ensures;
    broadcast use vstd::multiset::group_multiset_axioms;

    if s.len() == 0 {
        assert(reversed(s) =~= s);
    } else {
        let rest = s.drop_last();
        lemma_reversed_multiset(rest);
        assert(reversed(s) =~= seq![s.last()] + reversed(rest));
        vstd::seq_lib::lemma_multiset_commutative(seq![s.last()], reversed(rest));
        assert(seq![s.last()] =~= Seq::<T>::empty().push(s.last()));
        assert(s =~= rest.push(s.last()));
        assert(reversed(s).to_multiset() =~= s.to_multiset());
    }
}

proof fn lemma_known_after(state: Nearest, offers: Seq<(i32, i32)>) -> (left_out: Multiset<ScoreDoc>)
    requires
        state.heap.len() == 0,
        state.k > 0,
    ensures
        ({
            let after = known_after(state, offers);
            let held = after.heap.to_multiset();
            let all = offers.map_values(
                |o: (i32, i32)| ScoreDoc { doc: o.0, score: o.1, shard_index: -1i32 },
            ).to_multiset();
            &&& is_heap(after.heap, not_better())
            &&& after.k == state.k
            &&& after.limit == state.limit
            &&& after.visits == state.visits
            &&& after.heap.len() == if offers.len() < state.k {
                offers.len() as int
            } else {
                state.k
            }
            &&& held.add(left_out) == all
            &&& forall|a: ScoreDoc, b: ScoreDoc|
                #![trigger held.count(a), left_out.count(b)]
                held.count(a) > 0 && left_out.count(b) > 0 ==> b.score < a.score || (b.score
                    == a.score && b.doc >= a.doc)
        }),
    decreases offers.len(),
{
    broadcast use vstd::seq_lib::group_to_multiset_ensures;
    broadcast use vstd::multiset::group_multiset_axioms;

    let as_hit = |o: (i32, i32)| ScoreDoc { doc: o.0, score: o.1, shard_index: -1i32 };
    let all = offers.map_values(as_hit).to_multiset();
    let after = known_after(state, offers);
    if offers.len() == 0 {
        assert(offers.map_values(as_hit) =~= Seq::<ScoreDoc>::empty());
        assert(after.heap =~= Seq::<ScoreDoc>::empty());
        let none = Multiset::<ScoreDoc>::empty();
        assert(after.heap.to_multiset().add(none) =~= all);
        none
    } else {
        let rest = offers.drop_last();
        let left = lemma_known_after(state, rest);
        let before = known_after(state, rest);
        let hit = as_hit(offers.last());
        lemma_offered(before, offers.last().0, offers.last().1);
        assert(offers.map_values(as_hit) =~= rest.map_values(as_hit).push(hit));
        let held0 = before.heap.to_multiset();
        let held = after.heap.to_multiset();
        assert(all =~= held0.add(left).insert(hit));
        if before.heap.len() < before.k {
            assert(left.len() == 0) by {
                assert(held0.len() + left.len() == rest.map_values(as_hit).to_multiset().len());
                assert(rest.map_values(as_hit).to_multiset().len() == rest.len());
                assert(held0.len() == before.heap.len());
            }
            assert(held.add(left) =~= all);
            assert forall|b: ScoreDoc| left.count(b) == 0 by {
                if left.count(b) > 0 {
                    assert(left.remove(b).insert(b) =~= left);
                    assert(left.remove(b).len() + 1 == left.len());
                }
            }
            left
        } else {
            let more = held0.insert(hit);
            let out = choose|out: ScoreDoc|
                more.count(out) > 0 && #[trigger] more.remove(out) == held && forall|h: ScoreDoc| #[trigger]
                    more.count(h) > 0 ==> out.score < h.score || (out.score == h.score && out.doc
                        >= h.doc);
            let result = left.insert(out);
            assert(held.add(result) =~= all);
            assert forall|a: ScoreDoc, b: ScoreDoc|
                #![trigger held.count(a), result.count(b)]
                held.count(a) > 0 && result.count(b) > 0 implies b.score < a.score || (b.score
                == a.score && b.doc >= a.doc) by {
                assert(more.count(a) > 0);
                if b != out {
                    assert(left.count(b) > 0);
                    if held0.count(a) == 0 {
                        assert(a == hit);
                        if out == hit {
                            assert(more.remove(out).count(hit) == held0.count(hit));
                        } else {
                            assert(held0.count(out) > 0);
                        }
                    }
                }
            }
            result
        }
    }
}

impl TopKnnCollector {
    /// Offering a vector keeps all vectors while there is room. Then one vector that is not nearer
    /// than any other leaves, or is not let in: of two vectors that of the greater similarity is
    /// nearer, and with the same similarity that of the lesser document. The collector says that
    /// it takes a vector when it holds it afterwards.
    pub proof fn offers_keep_the_nearest(&self, doc: i32, similarity: i32)
        requires
            self.inv(),
        ensures
            ({
                let hit = ScoreDoc { doc, score: similarity, shard_index: -1i32 };
                let held = self.known().heap;
                let after = Self::offered(self.known(), doc, similarity);
                let all = held.to_multiset().insert(hit);
                &&& after.k == self.known().k
                &&& after.limit == self.known().limit
                &&& after.visits == self.known().visits
                &&& held.len() <= self.known().k
                &&& held.len() < self.known().k ==> after.heap.to_multiset() == all
                &&& held.len() == self.known().k ==> exists|out: ScoreDoc|
                    all.count(out) > 0 && #[trigger] all.remove(out) == after.heap.to_multiset()
                        && forall|h: ScoreDoc| #[trigger]
                        all.count(h) > 0 ==> out.score < h.score || (out.score == h.score && out.doc
                            >= h.doc)
                &&& Self::takes(self.known(), doc, similarity) <==> exists|h: ScoreDoc| #[trigger]
                    after.heap.to_multiset().count(h) > 0 && h.doc == doc && h.score == similarity
            }),
    {
        self.queue.size_is_bounded();
        self.queue.wf_is_heap();
        lemma_offered(self.known(), doc, similarity);
    }

    /// After any offers, a collector that held nothing has the `k` nearest of the vectors that it
    /// was offered, or all of them when there are fewer: no vector that it left out is nearer than
    /// one that it holds. They come out nearest first, and none is lost.
    pub proof fn nearest_of_all_are_found(&self, offers: Seq<(i32, i32)>) -> (left_out: Multiset<
        ScoreDoc,
    >)
        requires
            self.inv(),
            self.known().heap.len() == 0,
        ensures
            ({
                let k = self.known().k;
                let after = known_after(self.known(), offers);
                let out = Self::results(after).score_docs;
                let all = offers.map_values(
                    |o: (i32, i32)| ScoreDoc { doc: o.0, score: o.1, shard_index: -1i32 },
                ).to_multiset();
                &&& after.heap.len() == if offers.len() < k {
                    offers.len() as int
                } else {
                    k
                }
                &&& out.len() == after.heap.len()
                &&& after.heap.to_multiset().add(left_out) == all
                &&& out.to_multiset().add(left_out) == all
                &&& forall|i: int, j: int|
                    0 <= i < j < out.len() ==> (#[trigger] out[i]).score > (#[trigger] out[j]).score
                        || (out[i].score == out[j].score && out[i].doc <= out[j].doc)
                &&& forall|i: int, b: ScoreDoc|
                    #![trigger out[i], left_out.count(b)]
                    0 <= i < out.len() && left_out.count(b) > 0 ==> b.score < out[i].score || (
                    b.score == out[i].score && b.doc >= out[i].doc)
            }),
    {
        broadcast use vstd::seq_lib::group_to_multiset_ensures;
        broadcast use vstd::multiset::group_multiset_axioms;

        let state = self.known();
        let left_out = lemma_known_after(state, offers);
        let after = known_after(state, offers);
        let held = after.heap.to_multiset();
        let as_hit = |o: (i32, i32)| ScoreDoc { doc: o.0, score: o.1, shard_index: -1i32 };
        let hits = offers.map_values(as_hit);
        let all = hits.to_multiset();
        assert(refines(hit_order(), not_better()));
        drained_is_sorted(after.heap, hit_order(), not_better());
        let d = drained(after.heap, hit_order(), after.heap.len());
        let out = Self::results(after).score_docs;
        assert forall|i: int| 0 <= i < d.len() implies neighbor(d[i].doc, d[i].score)
            == #[trigger] d[i] by {
            assert(d.contains(d[i]));
            assert(d.to_multiset().count(d[i]) > 0);
            assert(all.count(d[i]) > 0);
            assert(hits.contains(d[i]));
            let j = choose|j: int| 0 <= j < hits.len() && hits[j] == d[i];
            assert(d[i] == as_hit(offers[j]));
        }
        assert(out =~= reversed(d));
        lemma_reversed_multiset(d);
        assert forall|i: int, j: int| 0 <= i < j < out.len() implies (#[trigger] out[i]).score > (
        #[trigger] out[j]).score || (out[i].score == out[j].score && out[i].doc <= out[j].doc) by {
            assert(not_better()(d[d.len() - 1 - j], d[d.len() - 1 - i]));
        }
        assert forall|i: int, b: ScoreDoc|
            #![trigger out[i], left_out.count(b)]
            0 <= i < out.len() && left_out.count(b) > 0 implies b.score < out[i].score || (b.score
            == out[i].score && b.doc >= out[i].doc) by {
            assert(out.contains(out[i]));
            assert(out.to_multiset().count(out[i]) > 0);
            assert(held.count(out[i]) > 0);
        }
        left_out
    }
}

} // verus!
