use std::sync::Arc;

use rucene::error::LuceneError;
use rucene::search::hit_queue::{HitQueue, HitQueueComparator, WORST_SCORE};
use rucene::search::hnsw_queue_saturation_collector::{
    HnswQueueSaturationCollector, HnswQueueSaturationState,
};
use rucene::search::index_searcher::ScoreDoc;
use rucene::search::knn::{
    EntryPoints, Hnsw, KnnCollector, KnnSearchStrategy, Patience, Seeded, TopKnnCollector,
    DEFAULT_FILTERED_SEARCH_THRESHOLD,
};
use rucene::search::top_docs::TotalHitsRelation;

fn hit(doc: i32, score: i32) -> ScoreDoc {
    ScoreDoc { doc, score, shard_index: -1 }
}

fn pairs(hits: &[ScoreDoc]) -> Vec<(i32, i32)> {
    hits.iter().map(|h| (h.doc, h.score)).collect()
}

#[test]
fn worse_hits_come_first() {
    assert!(HitQueueComparator::less_than(&hit(1, 5), &hit(1, 6)));
    assert!(HitQueueComparator::less_than(&hit(2, 5), &hit(1, 5)));
    assert!(!HitQueueComparator::less_than(&hit(1, 5), &hit(1, 5)));
}

#[test]
fn hit_queue_keeps_the_best_hits() {
    let mut queue = HitQueue::new(2, false).unwrap();
    assert!(queue.insert_with_overflow(hit(3, 10)).is_none());
    assert!(queue.insert_with_overflow(hit(1, 20)).is_none());
    assert_eq!(queue.insert_with_overflow(hit(2, 5)).unwrap().doc, 2);
    assert_eq!(queue.insert_with_overflow(hit(4, 10)).unwrap().doc, 4);
    assert_eq!(queue.insert_with_overflow(hit(0, 10)).unwrap().doc, 3);
    assert_eq!(queue.top().unwrap().doc, 0);
    assert_eq!(queue.pop().unwrap().doc, 0);
    assert_eq!(queue.pop().unwrap().doc, 1);
    assert!(queue.pop().is_none());
}

#[test]
fn prefilled_hit_queue_holds_sentinels() {
    let mut queue = HitQueue::new(3, true).unwrap();
    assert_eq!(queue.size(), 3);
    let top = queue.top().unwrap();
    assert_eq!((top.doc, top.score, top.shard_index), (i32::MAX, WORST_SCORE, -1));
    assert_eq!(WORST_SCORE, (f32::NEG_INFINITY.to_bits() as i32) ^ 0x7fff_ffff);
    queue.update_top_with(hit(7, 1));
    assert_eq!(queue.pop().unwrap().doc, i32::MAX);
    assert_eq!(queue.pop().unwrap().doc, i32::MAX);
    assert_eq!(queue.pop().unwrap().doc, 7);
    queue.clear();
    assert_eq!(queue.size(), 0);
    assert_eq!(queue.add(hit(1, 3)).doc, 1);
    assert_eq!(queue.add(hit(2, 2)).doc, 2);
    assert_eq!(queue.update_top().unwrap().doc, 2);
    assert_eq!(queue.hit_at(1).doc, 1);
}

#[test]
fn threshold_must_be_a_percentage() {
    assert_eq!(Hnsw::new(0).unwrap().filtered_search_threshold(), 0);
    assert_eq!(Hnsw::new(100).unwrap().filtered_search_threshold(), 100);
    for bad in [-1, 101] {
        match Hnsw::new(bad) {
            Err(LuceneError::IllegalArgument(m)) => {
                assert_eq!(m, "filteredSearchThreshold must be >= 0 and <= 100")
            }
            _ => panic!(),
        }
    }
    assert_eq!(
        KnnSearchStrategy::hnsw_default().filtered_search_threshold(),
        Some(DEFAULT_FILTERED_SEARCH_THRESHOLD)
    );
}

#[test]
fn seeded_strategies_check_their_entry_points() {
    match Seeded::new(EntryPoints::Given(1), -1, KnnSearchStrategy::hnsw_default()) {
        Err(LuceneError::IllegalArgument(m)) => assert_eq!(m, "numberOfEntryPoints must be >= 0"),
        _ => panic!(),
    }
    match Seeded::new(EntryPoints::Missing(4), 2, KnnSearchStrategy::hnsw_default()) {
        Err(LuceneError::IllegalArgument(m)) => assert_eq!(m, "entryPoints must not be null"),
        _ => panic!(),
    }
    let seeded = Seeded::new(EntryPoints::Missing(4), 0, KnnSearchStrategy::hnsw_default()).unwrap();
    assert_eq!(seeded.number_of_entry_points(), 0);
    assert_eq!(seeded.entry_points(), EntryPoints::Missing(4));
    let seeded = Seeded::new(EntryPoints::Given(9), 2, KnnSearchStrategy::hnsw_default()).unwrap();
    let other = seeded.with_original_strategy(KnnSearchStrategy::Patience(Patience::new(5, 40)));
    assert_eq!(other.entry_points(), EntryPoints::Given(9));
    assert_eq!(other.original_strategy().filtered_search_threshold(), Some(40));
    let strategy = KnnSearchStrategy::Seeded(other);
    assert_eq!(strategy.filtered_search_threshold(), None);
    assert_eq!(strategy.next_vectors_block(), Some(5));
    assert_eq!(KnnSearchStrategy::hnsw_default().next_vectors_block(), None);
}

#[test]
fn strategies_are_equal_with_equal_parameters() {
    let a = KnnSearchStrategy::Seeded(
        Seeded::new(EntryPoints::Given(1), 2, KnnSearchStrategy::hnsw_default()).unwrap(),
    );
    assert!(a == a.duplicate());
    let b = KnnSearchStrategy::Seeded(
        Seeded::new(EntryPoints::Given(2), 2, KnnSearchStrategy::hnsw_default()).unwrap(),
    );
    assert!(a != b);
    let without = |number| {
        let points = EntryPoints::Missing(number);
        KnnSearchStrategy::Seeded(
            Seeded::new(points, 0, KnnSearchStrategy::hnsw_default()).unwrap(),
        )
    };
    assert!(without(3) == without(3).duplicate());
    assert!(without(3) != without(4));
    assert!(KnnSearchStrategy::hnsw_default() != KnnSearchStrategy::Patience(Patience::new(1, 0)));
    assert!(
        KnnSearchStrategy::Patience(Patience::new(1, 0))
            == KnnSearchStrategy::Patience(Patience::new(1, 0))
    );
    assert!(
        KnnSearchStrategy::Patience(Patience::new(1, 0))
            != KnnSearchStrategy::Patience(Patience::new(2, 0))
    );
    assert_eq!(Patience::new(3, 7).state(), 3);
}

#[test]
fn collector_keeps_the_nearest_vectors() {
    let mut collector = TopKnnCollector::new(2, 100);
    assert_eq!(collector.min_competitive_similarity(), WORST_SCORE);
    assert!(collector.collect(1, 10));
    assert!(collector.collect(2, 30));
    assert_eq!(collector.min_competitive_similarity(), 10);
    assert!(!collector.collect(3, 5));
    assert!(collector.collect(1, 10));
    assert!(collector.collect(4, 20));
    assert_eq!(collector.num_collected(), 2);
    assert_eq!(collector.to_text(), "TopKnnCollector[k=2, size=2]");
    assert_eq!(collector.nodes(), vec![4, 2]);
    assert_eq!(collector.top_docs_with_scores(), vec![(2, 30), (4, 20)]);
    collector.inc_visited_count(7);
    assert!(!collector.early_terminated());
    let top = collector.top_docs();
    assert_eq!(top.total_hits.value, 7);
    assert_eq!(top.total_hits.relation, TotalHitsRelation::EqualTo);
    assert_eq!(pairs(&top.score_docs), vec![(2, 30), (4, 20)]);
    assert_eq!(collector.num_collected(), 0);
}

#[test]
fn visiting_too_many_vectors_ends_the_search() {
    let mut collector =
        TopKnnCollector::with_strategy(3, 5, Some(KnnSearchStrategy::hnsw_default()));
    assert!(collector.get_search_strategy().is_some());
    assert_eq!((collector.k(), collector.visit_limit()), (3, 5));
    collector.collect(8, 1);
    collector.collect(6, 1);
    collector.inc_visited_count(5);
    assert_eq!(collector.visited_count(), 5);
    assert!(collector.early_terminated());
    assert_eq!(collector.top_docs_with_scores(), vec![(8, 1), (6, 1)]);
    let top = collector.top_docs();
    assert_eq!(top.total_hits.relation, TotalHitsRelation::GreaterThanOrEqualTo);
    assert_eq!(pairs(&top.score_docs), vec![(6, 1), (8, 1)]);
}

#[test]
fn patience_runs_out_after_a_run_of_saturated_candidates() {
    let mut state = HnswQueueSaturationState::new(2);
    assert_eq!(state.saturation(), (0, 0));
    state.record_collected();
    state.record_collected();
    state.next_candidate(false);
    assert_eq!(state.saturation(), (2, 2));
    state.record_collected();
    assert_eq!(state.saturation(), (2, 3));
    state.next_candidate(true);
    state.next_candidate(false);
    state.next_candidate(true);
    assert!(!state.patience_finished());
    state.next_candidate(true);
    assert!(state.patience_finished());
    state.next_candidate(false);
    assert!(state.patience_finished());
}

#[test]
fn patience_of_one_ends_with_the_first_saturated_candidate() {
    let inner = TopKnnCollector::with_strategy(2, 100, Some(KnnSearchStrategy::hnsw_default()));
    let mut collector = HnswQueueSaturationCollector::new(inner, 1, 77);
    collector.next_candidate(false);
    assert!(!collector.early_terminated());
    collector.next_candidate(true);
    assert!(collector.early_terminated());
}

#[test]
fn collected_vectors_are_taken_out_once() {
    let mut collector = TopKnnCollector::with_strategy(2, 100, None);
    assert!(collector.collect(1, 4));
    assert_eq!(pairs(&collector.top_docs().score_docs), vec![(1, 4)]);
    assert!(collector.top_docs().score_docs.is_empty());
}

#[test]
fn saturated_collector_reports_all_hits() {
    let inner = TopKnnCollector::with_strategy(2, 100, Some(KnnSearchStrategy::hnsw_default()));
    let mut collector = HnswQueueSaturationCollector::new(inner, 0, 77);
    assert!(collector.collect(1, 4));
    assert!(collector.collect(2, 5));
    assert!(!collector.collect(3, 1));
    assert_eq!(collector.state().current_queue_size, 2);
    collector.inc_visited_count(3);
    assert!(!collector.early_terminated());
    collector.next_candidate(true);
    assert!(collector.early_terminated());
    assert_eq!((collector.k(), collector.visit_limit(), collector.visited_count()), (2, 100, 3));
    assert_eq!(collector.min_competitive_similarity(), 4);
    assert!(
        collector.get_search_strategy()
            == Some(&KnnSearchStrategy::Patience(Patience::new(77, 0)))
    );
    let top = collector.top_docs();
    assert_eq!(top.total_hits.relation, TotalHitsRelation::EqualTo);
    assert_eq!(pairs(&top.score_docs), vec![(2, 5), (1, 4)]);
}

#[test]
fn patience_wraps_graph_searches_only() {
    let seeded = Seeded::new(EntryPoints::Given(1), 1, KnnSearchStrategy::Hnsw(Hnsw::new(30).unwrap())).unwrap();
    let inner = TopKnnCollector::with_strategy(1, 1, Some(KnnSearchStrategy::Seeded(seeded)));
    let collector = HnswQueueSaturationCollector::new(inner, 0, 5);
    match collector.get_search_strategy() {
        Some(KnnSearchStrategy::Seeded(s)) => {
            assert!(
                *s.original_strategy() == KnnSearchStrategy::Patience(Patience::new(5, 30))
            )
        }
        _ => panic!(),
    }
    let patience = KnnSearchStrategy::Patience(Patience::new(8, 1));
    let inner = TopKnnCollector::with_strategy(1, 1, Some(patience.duplicate()));
    let collector = HnswQueueSaturationCollector::new(inner, 0, 5);
    assert!(collector.get_search_strategy() == Some(&patience));
    let collector = HnswQueueSaturationCollector::new(TopKnnCollector::new(1, 1), 0, 5);
    assert!(collector.get_search_strategy().is_none());
    let shared = Arc::new(patience);
    assert!(shared.same_strategy(&shared));
}

#[test]
fn early_end_of_the_inner_collector_wins() {
    let mut collector = HnswQueueSaturationCollector::new(TopKnnCollector::new(1, 2), 0, 5);
    collector.collect(1, 1);
    collector.inc_visited_count(2);
    collector.next_candidate(true);
    let top = collector.top_docs();
    assert_eq!(top.total_hits.relation, TotalHitsRelation::GreaterThanOrEqualTo);
}
