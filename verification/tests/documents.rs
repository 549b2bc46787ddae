use std::sync::Arc;

use rucene::error::LuceneError;
use rucene::search::collector::CollectionError;
use rucene::search::controlled_real_time_reopen_thread::{
    MaxCompletedSequenceNumberSource, ReopenState, ReopenStep, WaitStep,
};
use rucene::search::doc_and_score_query::{find_segment_starts, DocAndScoreQuery};
use rucene::search::doc_id_set::{self, AllDocIdSet, DocIdSet, EmptyDocIdSet};
use rucene::search::doc_id_set_iterator::{DocIdSetIterator, NO_MORE_DOCS};
use rucene::search::doc_id_stream::{CheckedIntConsumer, DocIdStream, RangeDocIdStream};
use rucene::search::index_priority_queue::{IndexOrder, IndexPriorityQueue};
use rucene::search::index_searcher::{LeafReaderContext, ScoreDoc};
use rucene::util::bits::Bits;
use rucene::util::models::Sequence;

struct Writer {
    completed: i64,
}

impl MaxCompletedSequenceNumberSource for Writer {
    fn get_max_completed_sequence_number(&self) -> i64 {
        self.completed
    }
}

#[test]
fn reopening_makes_completed_operations_visible() {
    let mut state = ReopenState::new();
    assert_eq!(state.get_searching_gen(), 0);
    assert!(state.request_generation(5));
    assert!(state.request_generation(3));
    assert_eq!(state.waiting_gen, 5);
    assert_eq!(state.wait_step(5, -1, 0), WaitStep::Wait);
    assert_eq!(state.wait_step(5, 100, 30), WaitStep::WaitMillis(70));
    assert_eq!(state.wait_step(5, 100, 100), WaitStep::TimedOut);
    state.before_refresh(&Writer { completed: 7 });
    assert_eq!(state.get_searching_gen(), 0);
    state.after_refresh();
    assert_eq!(state.get_searching_gen(), 7);
    assert_eq!(state.wait_step(5, 0, 1), WaitStep::Available);
    assert!(!state.request_generation(7));
    assert_eq!(state.waiting_gen, 5);
    state.refresh_started(9);
    assert_eq!(state.get_searching_gen(), 7);
    state.after_refresh();
    assert_eq!(state.get_searching_gen(), 9);
}

#[test]
fn waiting_shortens_the_time_between_reopenings() {
    let mut state = ReopenState::new();
    assert_eq!(state.reopen_step(1000, 100, 50), ReopenStep::SleepNanos(950));
    state.request_generation(1);
    assert_eq!(state.reopen_step(1000, 100, 50), ReopenStep::SleepNanos(50));
    assert_eq!(state.reopen_step(1000, 100, 100), ReopenStep::Reopen);
    state.reopen_failed();
    assert_eq!(state.reopen_step(1000, 100, 100), ReopenStep::Finish);
}

#[test]
fn closing_twice_has_nothing_to_close() {
    let mut state = ReopenState::new();
    assert!(state.begin_close(true));
    state.end_close();
    assert!(!state.begin_close(false));
    assert_eq!(state.wait_step(i64::MAX, -1, 0), WaitStep::Available);
}

#[test]
fn empty_and_full_document_sets() {
    let none = EmptyDocIdSet::default();
    assert_eq!(none.iterator().unwrap().next_doc().unwrap(), NO_MORE_DOCS);
    assert!(none.bits().unwrap().is_none());
    assert_eq!(none.ram_bytes_used(), 0);
    let every = AllDocIdSet::new(2);
    assert_eq!(every.max_doc(), 2);
    let mut it = every.iterator().unwrap();
    assert_eq!(it.next_doc().unwrap(), 0);
    assert_eq!(it.next_doc().unwrap(), 1);
    assert_eq!(it.next_doc().unwrap(), NO_MORE_DOCS);
    let bits = every.bits().unwrap().unwrap();
    assert_eq!(bits.length(), 2);
    assert!(bits.get(1));
    assert!(AllDocIdSet::new(-1).iterator().is_err());
    assert_eq!(doc_id_set::all(4).max_doc(), 4);
    assert!(doc_id_set::empty().bits().unwrap().is_none());
}

struct Seen {
    docs: Vec<i32>,
    limit: usize,
}

impl CheckedIntConsumer<CollectionError> for Seen {
    fn consumed(&self) -> Sequence<i32> {
        unreachable!()
    }

    fn infallible(&self) -> bool {
        unreachable!()
    }

    fn accept(&mut self, value: i32) -> Result<(), CollectionError> {
        if self.docs.len() == self.limit {
            return Err(CollectionError::CollectionTerminated);
        }
        self.docs.push(value);
        Ok(())
    }
}

#[test]
fn range_streams_need_a_range() {
    match RangeDocIdStream::new(4, 4) {
        Err(LuceneError::IllegalArgument(m)) => assert_eq!(m, "min = 4 >= max = 4"),
        _ => panic!(),
    }
}

#[test]
fn steps_of_a_stream_add_up() {
    let mut stream = RangeDocIdStream::new(3, 12).unwrap();
    let mut seen = Seen { docs: vec![], limit: 100 };
    stream.for_each_up_to(5, &mut seen).unwrap();
    assert_eq!(seen.docs, vec![3, 4]);
    assert_eq!(stream.count_up_to(7).unwrap(), 2);
    assert_eq!(stream.count_up_to(2).unwrap(), 0);
    let mut array = vec![-1; 3];
    assert_eq!(stream.into_array_up_to(9, &mut array), 2);
    assert_eq!(array, vec![7, 8, -1]);
    assert!(stream.may_have_remaining());
    assert_eq!(stream.into_array(&mut array), 3);
    assert_eq!(array, vec![9, 10, 11]);
    assert!(!stream.may_have_remaining());
    assert_eq!(stream.count().unwrap(), 0);
    assert_eq!(stream.into_array_up_to(-5, &mut array), 0);
}

#[test]
fn a_consumer_can_end_a_stream() {
    let mut stream = RangeDocIdStream::new(0, 5).unwrap();
    let mut seen = Seen { docs: vec![], limit: 2 };
    assert!(matches!(
        stream.for_each(&mut seen),
        Err(CollectionError::CollectionTerminated)
    ));
    assert_eq!(seen.docs, vec![0, 1]);
}

fn leaf(id: u64, doc_base: i32, max_doc: i32) -> Arc<LeafReaderContext> {
    Arc::new(LeafReaderContext { id, doc_base, max_doc, live_docs: None })
}

fn hit(doc: i32, score: i32) -> ScoreDoc {
    ScoreDoc { doc, score, shard_index: -1 }
}

#[test]
fn segments_start_at_their_first_document() {
    let leaves = vec![leaf(0, 0, 10), leaf(1, 10, 5), leaf(2, 15, 5)];
    assert_eq!(find_segment_starts(&leaves, &[2, 4, 16, 19]), vec![0, 2, 2, 4]);
    assert_eq!(find_segment_starts(&leaves, &[]), vec![0, 0, 0, 0]);
}

#[test]
fn documents_and_scores_are_found_again() {
    let leaves = vec![leaf(0, 0, 10), leaf(1, 10, 5), leaf(2, 15, 5)];
    let hits = vec![hit(16, 90), hit(2, 80), hit(4, 70)];
    let query = DocAndScoreQuery::create_doc_and_score_query(&leaves, 1, &hits, 42).unwrap();
    let first = query.docs[0];
    assert_eq!(
        query.to_query_string("0.5", "2.0"),
        format!("DocAndScoreQuery[{first},...][0.5,...],2.0")
    );
    assert_eq!(*query.docs, vec![2, 4, 16]);
    assert_eq!(*query.scores, vec![80, 70, 90]);
    assert_eq!(query.max_score, 90);
    assert_eq!(query.visited(), 42);
    let weight = query.create_weight(1).unwrap();
    assert!(weight.is_cacheable());
    assert_eq!((weight.count(0), weight.count(1), weight.count(2)), (2, 0, 1));
    assert_eq!(weight.position(&leaves[2], 1), Some(2));
    assert_eq!(weight.position(&leaves[2], 2), None);
    let e = weight.explain(Some(90));
    assert!(e.is_match);
    assert_eq!((e.value, e.description.as_str()), (90, "within top 3 docs"));
    assert_eq!(weight.explain(None).description, "not in top 3 docs");
    assert!(weight.scorer(1, 10).is_none());
    let mut it = weight.scorer(0, 0).unwrap();
    assert_eq!(it.cost(), 2);
    assert_eq!(it.doc_id(), -1);
    assert_eq!(it.next_doc().unwrap(), 2);
    assert_eq!(it.position(), 0);
    assert_eq!(it.advance(3).unwrap(), 4);
    assert_eq!(query.scores[it.position() as usize], 70);
    assert_eq!(it.advance(5).unwrap(), NO_MORE_DOCS);
    assert!(query.query_eq(&query));
    match query.create_weight(2) {
        Err(LuceneError::IllegalState(m)) => {
            assert_eq!(m, "This DocAndScore query was created by a different reader")
        }
        _ => panic!(),
    }
    match DocAndScoreQuery::create_doc_and_score_query(&leaves, 1, &[], 0) {
        Err(LuceneError::IllegalArgument(m)) => {
            assert_eq!(m, "createDocAndScoreQuery requires at least one hit")
        }
        _ => panic!(),
    }
}

struct ByValue;

impl IndexOrder<u32> for ByValue {
    fn less(_a: u32, _b: u32) -> bool {
        unreachable!()
    }

    fn less_than(a: &u32, b: &u32) -> bool {
        a < b
    }
}

#[test]
fn queue_of_positions_follows_the_values() {
    let mut values = vec![50, 10, 40, 30];
    let mut queue: IndexPriorityQueue<u32, ByValue> = IndexPriorityQueue::new(4);
    queue.add_all(&values, &[0, 1, 2]);
    assert_eq!(queue.top(), Some(1));
    assert_eq!(queue.insert_with_overflow(&values, 3), None);
    assert_eq!(queue.size(), 4);
    values[1] = 45;
    assert_eq!(queue.update_top(&values), Some(3));
    assert_eq!(queue.pop(&values), Some(3));
    assert_eq!(queue.pop(&values), Some(2));
    assert_eq!(queue.pop(&values), Some(1));
    assert_eq!(queue.entries(), &[0]);
    assert_eq!(queue.get(0), 0);
    assert_eq!(queue.update_top_with(&values, 2), Some(2));
    queue.clear();
    assert_eq!(queue.pop(&values), None);
    assert_eq!(queue.add(&values, 3), 3);
}
