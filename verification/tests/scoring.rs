use std::cell::RefCell;
use std::collections::BTreeMap;
use std::rc::Rc;
use std::sync::{Arc, Mutex};

use rucene::error::LuceneError;
use rucene::search::bulk_scorer::{BulkScorer, ScoreCollector};
use rucene::search::collector::{CollectionError, DocCollector, LeafCollector};
use rucene::search::dense_conjunction_bulk_scorer::DenseConjunctionBulkScorer;
use rucene::search::disjunction_scorer::DisjunctionScorer;
use rucene::search::disjunction_sum_scorer::{max_score_clauses, DisjunctionSumScorer};
use rucene::search::disjunction_max_bulk_scorer::DisjunctionMaxBulkScorer;
use rucene::search::disjunction_score_block_boundary_propagator::{
    DisjunctionScoreBlockBoundaryPropagator, ScoreBlocks, SubScorers,
};
use rucene::search::doc_id_set_iterator::{DocIdSetIterator, DocIds, NO_MORE_DOCS};
use rucene::search::explanation::Explanation;
use rucene::search::field_comparator::{
    FieldComparator, RelevanceComparator, Scorable, Slots, SortValue,
};
use rucene::search::field_comparator_source::{FieldComparatorSource, Pruning, SortField};
use rucene::search::field_doc::FieldDoc;
use rucene::search::field_value_hit_queue::{Entry, FieldValueHitQueue, NO_SCORE};
use rucene::search::index_searcher::{
    check_score_mode, sub_index_from_leaves, Collector, CollectorManager, FieldStatistics,
    IndexReader, IndexReaderContext, IndexSearcher, LeafReaderContext,
    LeafReaderContextPartition, LeafSlice, NumClausesCheckVisitor, Query, QueryCache, ScoreDoc,
    SearchDefaults, SearchEvent, SearchableQuery, StoredFieldsReader, TaskExecutor, TooManyClauses,
    TooManyNestedClauses, Weight, DEFAULT_MAX_CLAUSE_COUNT, MODES_DIFFER, TOTAL_HITS_THRESHOLD,
    UNIT_BOOST,
};
use rucene::search::index_sort_sorted_numeric_doc_values_range_query::{
    next_doc, BoundedDocIdSetIterator, IndexSortSortedNumericDocValuesRangeQuery,
    IteratorAndCount, MissingValue, PointNode, PointValues, RangeRewrite,
    SortField as IndexSortField, SortFieldType, SortedLeaf, ValueLookup,
};
use rucene::search::indri_disjunction_scorer::IndriDisjunctionScorer;
use rucene::search::query_timeout::QueryTimeout;
use rucene::search::score_mode::ScoreMode;
use rucene::search::scorer::{BlockScorer, Matching, Scorer};
use rucene::search::scorer_supplier::ScorerSupplier;
use rucene::util::bits::Bits;
use rucene::util::fixed_bit_set::FixedBitSet;
use rucene::util::models::{Collection, Integer, Natural, Sequence, Table};

fn illegal_argument<T>(r: Result<T, LuceneError>) -> String {
    match r {
        Err(LuceneError::IllegalArgument(m)) => m,
        _ => panic!(),
    }
}

struct ListScorer {
    docs: Vec<i32>,
    at: i32,
    confirm_even: bool,
    asked: Rc<RefCell<Vec<i32>>>,
}

fn list(docs: &[i32]) -> ListScorer {
    ListScorer { docs: docs.to_vec(), at: -1, confirm_even: false, asked: Rc::default() }
}

impl Scorer for ListScorer {
    fn view(&self) -> Matching {
        unreachable!()
    }

    fn inv(&self) -> bool {
        unreachable!()
    }

    fn infallible(&self) -> bool {
        unreachable!()
    }

    fn confirmed(&self) -> Sequence<Integer> {
        unreachable!()
    }

    fn doc_id(&self) -> i32 {
        self.at
    }

    fn next_approximation(&mut self) -> Result<i32, LuceneError> {
        self.advance_approximation(self.at + 1)
    }

    fn advance_approximation(&mut self, target: i32) -> Result<i32, LuceneError> {
        self.at = *self.docs.iter().find(|d| **d >= target).unwrap_or(&NO_MORE_DOCS);
        Ok(self.at)
    }

    fn load_approximation(
        &mut self,
        up_to: i32,
        bit_set: &mut FixedBitSet,
        offset: i32,
    ) -> Result<(), LuceneError> {
        if self.at == -1 {
            self.next_approximation()?;
        }
        while self.at < up_to {
            bit_set.set((self.at - offset) as usize);
            self.next_approximation()?;
        }
        Ok(())
    }

    fn cost(&self) -> i64 {
        self.docs.len() as i64
    }

    fn has_two_phase(&self) -> bool {
        self.confirm_even
    }

    fn match_cost(&self) -> i32 {
        1
    }

    fn matches(&mut self) -> Result<bool, LuceneError> {
        self.asked.borrow_mut().push(self.at);
        Ok(!self.confirm_even || self.at % 2 == 0)
    }

    fn hits_run_end(&self) -> Result<i32, LuceneError> {
        let mut end = self.at;
        if !self.confirm_even {
            let mut i = self.docs.binary_search(&end).unwrap();
            while i < self.docs.len() && self.docs[i] == end {
                end += 1;
                i += 1;
            }
        }
        Ok(end)
    }
}

/// Keeps how documents are received.
#[derive(Default)]
struct CallLog {
    docs: Vec<i32>,
    ranges: Vec<(i32, i32)>,
}

impl LeafCollector for CallLog {
    fn collected(&self) -> Sequence<Integer> {
        unreachable!()
    }

    fn scores(&self) -> Sequence<i32> {
        unreachable!()
    }

    fn ranges(&self) -> Sequence<(Integer, Integer)> {
        unreachable!()
    }

    fn infallible(&self) -> bool {
        unreachable!()
    }

    fn least_score(&self) -> i32 {
        unreachable!()
    }

    fn collect(&mut self, doc: i32, _score: i32) -> Result<(), CollectionError> {
        self.docs.push(doc);
        Ok(())
    }

    fn min_competitive_score(&self) -> i32 {
        0
    }

    fn collect_range(&mut self, min: i32, max: i32, _score: i32) -> Result<(), CollectionError> {
        self.ranges.push((min, max));
        Ok(())
    }
}

#[test]
fn windows_that_all_members_cover_are_one_range() {
    let a: Vec<i32> = (0..6000).collect();
    let b: Vec<i32> = (10..5000).collect();
    let mut scorer = DenseConjunctionBulkScorer::new(vec![list(&a), list(&b)], 10_000, 7).unwrap();
    let mut log = CallLog::default();
    let none = None::<&FixedBitSet>;
    let next = scorer.collect_docs(&mut log, none, None, 0, 10_000).unwrap();
    assert_eq!((next, log.ranges, log.docs), (NO_MORE_DOCS, vec![(10, 5000)], vec![]));

    let bits = FixedBitSet::new(10_000);
    let mut scorer = DenseConjunctionBulkScorer::new(vec![list(&a), list(&b)], 10_000, 7).unwrap();
    let mut log = CallLog::default();
    scorer.collect_docs(&mut log, Some(&bits), None, 0, 10_000).unwrap();
    assert_eq!((log.ranges, log.docs), (vec![], vec![]));
}

#[test]
fn only_documents_of_all_approximations_are_confirmed() {
    let asked = Rc::new(RefCell::new(Vec::new()));
    let confirming = ListScorer {
        docs: vec![5, 6, 7, 8, 12],
        at: -1,
        confirm_even: true,
        asked: Rc::clone(&asked),
    };
    let members = vec![list(&[4, 6, 7, 8, 10]), confirming];
    let (next, docs) = conjunction(members, None, None, 0, NO_MORE_DOCS);
    assert_eq!((next, docs), (NO_MORE_DOCS, vec![6, 8]));
    assert_eq!(asked.borrow().to_vec(), vec![6, 7, 8]);
}

fn conjunction(
    members: Vec<ListScorer>,
    accept_docs: Option<&FixedBitSet>,
    competitive: Option<ListScorer>,
    min: i32,
    max: i32,
) -> (i32, Vec<i32>) {
    let mut scorer = DenseConjunctionBulkScorer::new(members, 10_000, 7).unwrap();
    let mut collector = DocCollector::new(0);
    let next = scorer.collect_docs(&mut collector, accept_docs, competitive, min, max).unwrap();
    assert_eq!(collector.document_scores().to_vec(), vec![7; collector.docs().len()]);
    (next, collector.docs().to_vec())
}

#[test]
fn conjunctions_need_a_member() {
    assert_eq!(
        illegal_argument(DenseConjunctionBulkScorer::<ListScorer>::of(vec![], 10, 7)),
        "Expected one or more iterators, got 0"
    );
}

#[test]
fn conjunctions_collect_what_all_members_match() {
    let even: Vec<i32> = (0..9000).filter(|d| d % 2 == 0).collect();
    let third: Vec<i32> = (0..9000).filter(|d| d % 3 == 0).collect();
    let both: Vec<i32> = (0..9000).filter(|d| d % 6 == 0).collect();
    let (next, docs) = conjunction(vec![list(&even), list(&third)], None, None, 0, NO_MORE_DOCS);
    assert_eq!(next, NO_MORE_DOCS);
    assert_eq!(docs, both);
    let (_, docs) = conjunction(vec![list(&[3, 70, 9000]), list(&[70, 71])], None, None, 0, 100);
    assert_eq!(docs, vec![70]);
    let confirming = ListScorer { docs: third.clone(), at: -1, confirm_even: true, asked: Rc::default() };
    let (_, docs) = conjunction(vec![confirming], None, None, 10, 20);
    assert_eq!(docs, vec![12, 18]);
    let mut accept = FixedBitSet::new(10_000);
    accept.set(6);
    accept.set(8000);
    accept.set(9);
    let members = vec![list(&even), list(&third)];
    let (_, docs) = conjunction(members, Some(&accept), None, 0, NO_MORE_DOCS);
    assert_eq!(docs, vec![6]);
    let members = vec![list(&even), list(&third)];
    let (_, docs) = conjunction(members, None, Some(list(&[12, 13, 600])), 0, NO_MORE_DOCS);
    assert_eq!(docs, vec![12, 600]);
}

#[test]
fn members_are_ordered_by_cost() {
    let members = vec![list(&[1, 2, 3]), list(&[2])];
    let scorer = DenseConjunctionBulkScorer::of(members, 10, 7).unwrap();
    assert_eq!(scorer.cost(), 1);
}

#[test]
fn conjunctions_end_when_their_score_is_not_competitive() {
    let members = vec![list(&[1, 2, 3]), list(&[2])];
    let mut scorer = DenseConjunctionBulkScorer::of(members, 10, 7).unwrap();
    let mut collector = DocCollector::new(8);
    let next = scorer.collect_docs(&mut collector, None::<&FixedBitSet>, None, 0, 10).unwrap();
    assert_eq!(next, NO_MORE_DOCS);
    assert!(collector.docs().is_empty());
}

/// Asks for a greater score after so many documents, and ends with the one after so many.
struct Demanding {
    docs: Vec<i32>,
    enough: usize,
    limit: usize,
}

impl LeafCollector for Demanding {
    fn collected(&self) -> Sequence<Integer> {
        unreachable!()
    }

    fn scores(&self) -> Sequence<i32> {
        unreachable!()
    }

    fn ranges(&self) -> Sequence<(Integer, Integer)> {
        unreachable!()
    }

    fn infallible(&self) -> bool {
        unreachable!()
    }

    fn least_score(&self) -> i32 {
        unreachable!()
    }

    fn collect(&mut self, doc: i32, _score: i32) -> Result<(), CollectionError> {
        if self.docs.len() == self.limit {
            return Err(CollectionError::CollectionTerminated);
        }
        self.docs.push(doc);
        Ok(())
    }

    fn min_competitive_score(&self) -> i32 {
        if self.docs.len() < self.enough { 0 } else { 8 }
    }

    fn collect_range(&mut self, min: i32, max: i32, score: i32) -> Result<(), CollectionError> {
        (min..max).try_for_each(|doc| self.collect(doc, score))
    }
}

#[test]
fn conjunctions_end_with_a_window() {
    let even: Vec<i32> = (0..9000).filter(|d| d % 2 == 0).collect();
    let third: Vec<i32> = (0..9000).filter(|d| d % 3 == 0).collect();
    let scorer = || DenseConjunctionBulkScorer::of(vec![list(&even), list(&third)], 10_000, 7).unwrap();
    let mut collector = Demanding { docs: vec![], enough: 5, limit: usize::MAX };
    let none = None::<&FixedBitSet>;
    let next = scorer().collect_docs(&mut collector, none, None, 0, 10_000).unwrap();
    assert_eq!(next, NO_MORE_DOCS);
    let window: Vec<i32> = (0..4096).filter(|d| d % 6 == 0).collect();
    assert_eq!(collector.docs, window);

    let mut collector = Demanding { docs: vec![], enough: usize::MAX, limit: 3 };
    let r = scorer().collect_docs(&mut collector, none, None, 4, 10_000);
    assert!(matches!(r, Err(CollectionError::CollectionTerminated)));
    assert_eq!(collector.docs, vec![6, 12, 18]);
}

struct ListBulk(BTreeMap<i32, i32>);

impl BulkScorer for ListBulk {
    fn remaining(&self) -> Table<Integer, i32> {
        unreachable!()
    }

    fn inv(&self) -> bool {
        unreachable!()
    }

    fn infallible(&self) -> bool {
        unreachable!()
    }

    fn reported_cost(&self) -> i64 {
        unreachable!()
    }

    fn last_next(&self) -> Integer {
        unreachable!()
    }

    fn cost(&self) -> i64 {
        self.0.len() as i64
    }

    fn score<C: ScoreCollector, B: Bits>(
        &mut self,
        collector: &mut C,
        accept_docs: Option<&B>,
        min: i32,
        max: i32,
    ) -> Result<i32, CollectionError> {
        for (doc, score) in self.0.range(min..max) {
            if accept_docs.map_or(true, |bits| bits.get(*doc as usize)) {
                collector.collect(*doc, *score)?;
            }
        }
        let next = self.0.range(max..).next().map_or(NO_MORE_DOCS, |(doc, _)| *doc);
        self.0 = self.0.split_off(&max);
        Ok(next)
    }
}

struct Scores {
    seen: Vec<(i32, i32)>,
    least: i32,
    /// Collection ends with the document after so many.
    limit: usize,
}

fn scores() -> Scores {
    Scores { seen: vec![], least: 0, limit: usize::MAX }
}

impl ScoreCollector for Scores {
    fn collected(&self) -> Sequence<(Integer, i32)> {
        unreachable!()
    }

    fn inv(&self) -> bool {
        unreachable!()
    }

    fn infallible(&self) -> bool {
        unreachable!()
    }

    fn takes(&self, _doc: Integer) -> bool {
        unreachable!()
    }

    fn floor(&self) -> i32 {
        unreachable!()
    }

    fn steady(&self) -> bool {
        unreachable!()
    }

    fn ended(&self) -> bool {
        unreachable!()
    }

    fn min_competitive_score(&self) -> i32 {
        self.least
    }

    fn collect(&mut self, doc: i32, score: i32) -> Result<(), CollectionError> {
        if self.seen.len() == self.limit {
            return Err(CollectionError::CollectionTerminated);
        }
        self.seen.push((doc, score));
        Ok(())
    }
}

fn bulk(pairs: &[(i32, i32)]) -> ListBulk {
    ListBulk(pairs.iter().copied().collect())
}

#[test]
fn documents_get_the_greatest_score_of_a_clause() {
    match DisjunctionMaxBulkScorer::new(vec![bulk(&[])]) {
        Err(LuceneError::IllegalArgument(m)) => {
            assert_eq!(m, "Expected 2 or more bulk scorers, got 1")
        }
        _ => panic!(),
    }
    let clauses = vec![bulk(&[(1, 5), (7, 2), (9000, 1)]), bulk(&[(7, 4), (8, 3)])];
    let mut scorer = DisjunctionMaxBulkScorer::new(clauses).unwrap();
    assert_eq!(scorer.cost(), 5);
    let mut scores = scores();
    let next = scorer.score(&mut scores, None::<&FixedBitSet>, 0, NO_MORE_DOCS).unwrap();
    assert_eq!(next, NO_MORE_DOCS);
    assert_eq!(scores.seen, vec![(1, 5), (7, 4), (8, 3), (9000, 1)]);
}

#[test]
fn accepted_documents_are_scored() {
    let clauses = vec![bulk(&[(1, 5), (7, 2)]), bulk(&[(7, 4), (8, 3)])];
    let mut scorer = DisjunctionMaxBulkScorer::new(clauses).unwrap();
    let mut accept = FixedBitSet::new(10);
    accept.set(7);
    let mut scores = scores();
    let next = scorer.score(&mut scores, Some(&accept), 0, NO_MORE_DOCS).unwrap();
    assert_eq!((next, scores.seen), (NO_MORE_DOCS, vec![(7, 4)]));
}

#[test]
fn ended_collections_hold_the_first_documents() {
    let clauses = vec![bulk(&[(1, 5), (7, 2), (5000, 6)]), bulk(&[(7, 4), (8, 3)])];
    let mut scorer = DisjunctionMaxBulkScorer::new(clauses).unwrap();
    let mut ending = Scores { limit: 2, ..scores() };
    let r = scorer.score(&mut ending, None::<&FixedBitSet>, 0, NO_MORE_DOCS);
    assert!(matches!(r, Err(CollectionError::CollectionTerminated)));
    assert_eq!(ending.seen, vec![(1, 5), (7, 4)]);
}

fn dense(members: &[&[i32]]) -> DenseConjunctionBulkScorer<ListScorer> {
    let members = members.iter().map(|docs| list(docs)).collect();
    DenseConjunctionBulkScorer::new(members, 10_000, 7).unwrap()
}

#[test]
fn conjunctions_score_ranges() {
    let none = None::<&FixedBitSet>;
    let mut scorer = dense(&[&[1, 4, 6, 5000, 9999], &[4, 5, 6, 5000, 9999]]);
    let mut all = scores();
    assert_eq!(BulkScorer::score(&mut scorer, &mut all, none, 0, 5).unwrap(), 6);
    assert_eq!(BulkScorer::score(&mut scorer, &mut all, none, 5, 6000).unwrap(), 9999);
    assert_eq!(all.seen, vec![(4, 7), (6, 7), (5000, 7)]);
    assert_eq!(BulkScorer::score(&mut scorer, &mut all, none, 0, NO_MORE_DOCS).unwrap(), NO_MORE_DOCS);
    assert_eq!(all.seen.last(), Some(&(9999, 7)));
    assert_eq!(all.seen.len(), 4);

    let mut accept = FixedBitSet::new(10_000);
    accept.set(6);
    let mut some = scores();
    let mut scorer = dense(&[&[1, 4, 6, 5000], &[4, 5, 6, 5000]]);
    let next = scorer.score(&mut some, Some(&accept), 0, NO_MORE_DOCS).unwrap();
    assert_eq!((next, some.seen), (NO_MORE_DOCS, vec![(6, 7)]));

    let mut demanding = Scores { least: 8, ..scores() };
    let mut scorer = dense(&[&[1, 4, 6], &[4, 5, 6]]);
    assert_eq!(scorer.score(&mut demanding, none, 0, 5).unwrap(), NO_MORE_DOCS);
    assert!(demanding.seen.is_empty());

    let mut ending = Scores { limit: 1, ..scores() };
    let mut scorer = dense(&[&[1, 4, 6], &[4, 5, 6]]);
    let r = scorer.score(&mut ending, none, 0, NO_MORE_DOCS);
    assert!(matches!(r, Err(CollectionError::CollectionTerminated)));
    assert_eq!(ending.seen, vec![(4, 7)]);
}

#[test]
fn conjunctions_are_clauses_of_disjunctions() {
    let long: Vec<i32> = (0..9000).collect();
    let clauses = vec![dense(&[&[3, 70, 8000], &long]), dense(&[&[70, 71, 9000]])];
    let mut scorer = DisjunctionMaxBulkScorer::new(clauses).unwrap();
    let mut all = scores();
    let next = scorer.score(&mut all, None::<&FixedBitSet>, 0, NO_MORE_DOCS).unwrap();
    assert_eq!(next, NO_MORE_DOCS);
    assert_eq!(all.seen, vec![(3, 7), (70, 7), (71, 7), (8000, 7), (9000, 7)]);
}

struct Blocks {
    docs: Vec<i32>,
    costs: Vec<i64>,
    max_scores: Vec<i32>,
    looked_at: Vec<Option<i32>>,
}

impl SubScorers for Blocks {
    type Rest = ();

    fn blocks(&self) -> ScoreBlocks {
        unreachable!()
    }

    fn looked_at(&self) -> Sequence<Option<i32>> {
        unreachable!()
    }

    fn rest(&self) -> Self::Rest {
        unreachable!()
    }

    fn inv(&self) -> bool {
        unreachable!()
    }

    fn infallible(&self) -> bool {
        unreachable!()
    }

    fn len(&self) -> usize {
        self.docs.len()
    }

    fn doc_id(&self, index: usize) -> i32 {
        self.docs[index]
    }

    fn cost(&self, index: usize) -> i64 {
        self.costs[index]
    }

    fn max_score(&self, index: usize) -> Result<i32, LuceneError> {
        Ok(self.max_scores[index])
    }

    fn advance_shallow(&mut self, index: usize, target: i32) -> Result<i32, LuceneError> {
        self.looked_at[index] = Some(target);
        Ok((target / 100 + 1) * 100 + index as i32)
    }
}

#[test]
fn boundaries_are_propagated_from_the_lead_clause() {
    let mut blocks = Blocks {
        docs: vec![5, 40, 5],
        costs: vec![1, 1, 1],
        max_scores: vec![10, 30, 20],
        looked_at: vec![None; 3],
    };
    assert_eq!(max_score_clauses(&blocks, 39), vec![0, 2]);
    assert_eq!(max_score_clauses(&blocks, 40), vec![0, 1, 2]);
    let mut propagator = DisjunctionScoreBlockBoundaryPropagator::new(&mut blocks).unwrap();
    assert_eq!(blocks.looked_at, vec![Some(0), Some(0), Some(0)]);
    assert_eq!(propagator.advance_shallow(&mut blocks, 6).unwrap(), 39);
    propagator.set_min_competitive_score(15);
    assert_eq!(propagator.advance_shallow(&mut blocks, 50).unwrap(), 101);
    assert_eq!(blocks.looked_at, vec![Some(50), Some(50), Some(50)]);
    propagator.set_min_competitive_score(100);
    assert_eq!(propagator.advance_shallow(&mut blocks, 60).unwrap(), 101);
}

impl BlockScorer for ListScorer {
    fn greatest_score(&self) -> i32 {
        unreachable!()
    }

    fn block_end(&self, _target: i32) -> i32 {
        unreachable!()
    }

    fn looking_at(&self) -> Option<i32> {
        unreachable!()
    }

    fn max_score(&self) -> Result<i32, LuceneError> {
        Ok(self.docs.len() as i32)
    }

    fn advance_shallow(&mut self, target: i32) -> Result<i32, LuceneError> {
        let block = 10 * self.docs.len() as i32;
        Ok(target / block * block + block - 1)
    }
}

#[test]
fn clauses_of_a_disjunction_look_ahead() {
    let lists = || vec![list(&[1, 5, 40]), list(&[7])];
    let mut sum = DisjunctionSumScorer::new(lists(), ScoreMode::COMPLETE, i64::MAX, 0).unwrap();
    assert_eq!(sum.advance_shallow(12).unwrap(), 19);
    assert_eq!(sum.max_score_clauses(3), vec![0, 1]);
    assert_eq!(sum.next_doc().unwrap(), 1);
    assert_eq!(sum.max_score_clauses(3), vec![0]);
    assert_eq!(sum.advance_shallow(3).unwrap(), 29);
    assert_eq!(sum.doc_id(), 1);
    let mut all = DisjunctionScorer::new(lists(), ScoreMode::COMPLETE, i64::MAX, 0).unwrap();
    let mut propagator = DisjunctionScoreBlockBoundaryPropagator::new(&mut all).unwrap();
    assert_eq!(propagator.advance_shallow(&mut all, 3).unwrap(), 9);
    propagator.set_min_competitive_score(2);
    assert_eq!(propagator.advance_shallow(&mut all, 3).unwrap(), 29);
    assert_eq!(all.approximation().len(), 2);
}

#[test]
fn indri_disjunction_visits_the_union() {
    let mut scorer = IndriDisjunctionScorer::new(vec![list(&[3, 9]), list(&[4])], 7);
    assert_eq!(scorer.cost(), 3);
    assert_eq!(scorer.next_approximation().unwrap(), 3);
    assert_eq!(scorer.next_approximation().unwrap(), 4);
    assert_eq!(scorer.advance_approximation(5).unwrap(), 9);
    assert_eq!(scorer.get_sub_matches().len(), 2);
    assert!(!scorer.has_two_phase());
    assert_eq!(scorer.get_max_score(100), 0);
}

#[test]
fn field_documents_hold_their_values() {
    let doc = FieldDoc::new(3, 9);
    assert_eq!((doc.doc(), doc.score(), doc.shard_index()), (3, 9, -1));
    assert!(doc.fields.is_none());
    let doc = FieldDoc::with_shard_index(3, 9, vec![SortValue::Int(4)], 2);
    assert_eq!(doc.shard_index(), 2);
    assert!(doc.fields.unwrap()[0].equals(&SortValue::Int(4)));
    assert_eq!(FieldDoc::with_fields(1, 2, vec![]).fields.unwrap().len(), 0);
    assert_eq!(FieldDoc::new(3, 9).to_text("hit", &vec![]), "hit fields=null");
    let values = vec![SortValue::Int(4), SortValue::Null];
    let texts = vec!["4".to_string(), "null".to_string()];
    let text = FieldDoc::with_fields(1, 2, values).to_text("hit", &texts);
    assert_eq!(text, "hit fields=[4, null]");
    assert_eq!(FieldDoc::with_fields(1, 2, vec![]).to_text("", &vec![]), " fields=[]");
    assert_eq!(Entry::new(-3, 7).to_text("hit"), "slot:-3 hit");
}

struct Relevance;

impl FieldComparatorSource for Relevance {
    type C = RelevanceComparator;

    fn creates(&self, _fieldname: Sequence<char>, _num_hits: Integer, _pruning: Pruning, _reversed: bool, _comparator: Self::C) -> bool {
        unreachable!()
    }

    fn infallible(&self) -> bool {
        unreachable!()
    }

    fn new_comparator(
        &self,
        _fieldname: &str,
        num_hits: usize,
        _pruning: Pruning,
        _reversed: bool,
    ) -> Result<RelevanceComparator, LuceneError> {
        Ok(RelevanceComparator::new(num_hits))
    }
}

struct Fixed(i32);

impl Scorable for Fixed {
    fn current(&self) -> i32 {
        unreachable!()
    }

    fn infallible(&self) -> bool {
        unreachable!()
    }

    fn score(&mut self) -> Result<i32, LuceneError> {
        Ok(self.0)
    }
}

fn by_relevance(reverse: bool) -> SortField<Relevance> {
    SortField { field: "score".to_string(), reverse, source: Relevance }
}

#[test]
fn hits_are_queued_by_the_values_of_fields() {
    assert_eq!(
        illegal_argument(FieldValueHitQueue::<Relevance>::create(vec![], 3)),
        "Sort must contain at least one field"
    );
    let mut queue = FieldValueHitQueue::create(vec![by_relevance(false)], 3).unwrap();
    assert_eq!((queue.get_fields().len(), queue.get_comparators().len()), (1, 1));
    queue.set_next_leaf(&leaf(1, 0, 100)).unwrap();
    assert_eq!((queue.max_size(), queue.get_reverse_mul().clone()), (3, vec![1]));
    for (slot, (doc, score)) in [(10, 5), (11, 9), (12, 5)].into_iter().enumerate() {
        queue.copy(slot as i32, doc, &mut Fixed(score)).unwrap();
        assert!(queue.add(Entry::new(slot as i32, doc)).is_some());
    }
    assert_eq!(queue.size(), queue.max_size());
    assert_eq!(queue.top().unwrap().doc(), 12);
    queue.set_top_doc(15);
    assert_eq!(queue.top().unwrap().doc(), 15);
    queue.set_top_doc(12);
    queue.set_bottom(2).unwrap();
    assert_eq!(queue.compare_bottom(50, &mut Fixed(4)).unwrap(), -1);
    assert_eq!(queue.compare_bottom(50, &mut Fixed(6)).unwrap(), 1);
    let mut docs = vec![];
    while let Some(entry) = queue.pop() {
        assert_eq!(entry.score_doc.score, NO_SCORE);
        let filled = queue.fill_fields(&entry);
        docs.push((filled.doc(), filled.fields.unwrap()[0].as_float().unwrap()));
    }
    assert_eq!(docs, vec![(12, 5), (10, 5), (11, 9)]);
    let reversed = FieldValueHitQueue::create(vec![by_relevance(true)], 1).unwrap();
    assert_eq!(reversed.get_reverse_mul(), &vec![-1]);
}

/// Notes what it is told.
struct Told {
    at: i32,
    log: Rc<RefCell<Vec<String>>>,
    name: &'static str,
}

impl Told {
    fn note(&self, what: &str) {
        self.log.borrow_mut().push(format!("{} {}", self.name, what));
    }
}

impl FieldComparator for Told {
    type K = ();

    fn slots(&self) -> Slots<Self::K> {
        unreachable!()
    }

    fn rank(&self, _a: Self::K, _b: Self::K) -> Integer {
        unreachable!()
    }

    fn key_of(&self, _doc: i32, _score: i32) -> Self::K {
        unreachable!()
    }

    fn shows(&self, _key: Self::K, _v: SortValue) -> bool {
        unreachable!()
    }

    fn top_of(&self, _value: SortValue) -> Self::K {
        unreachable!()
    }

    fn inv(&self) -> bool {
        unreachable!()
    }

    fn infallible(&self) -> bool {
        unreachable!()
    }

    fn readable_from(&self) -> Integer {
        unreachable!()
    }

    fn same_rules(&self, _other: Self) -> bool {
        unreachable!()
    }

    fn enters(&self, _context: LeafReaderContext, _after: Self) -> bool {
        unreachable!()
    }

    fn takes_scorer(&self, _after: Self) -> bool {
        unreachable!()
    }

    fn reaches_threshold(&self, _after: Self) -> bool {
        unreachable!()
    }

    fn competitive_docs(&self) -> Option<Collection<Integer>> {
        unreachable!()
    }

    fn compare(&self, _slot1: i32, _slot2: i32) -> i32 {
        0
    }

    fn set_top_value(&mut self, _value: SortValue) {}

    fn value(&self, _slot: i32) -> SortValue {
        SortValue::Null
    }

    fn get_leaf_comparator(&mut self, _context: &LeafReaderContext) -> Result<(), LuceneError> {
        Ok(())
    }

    fn set_bottom(&mut self, _slot: i32) -> Result<(), LuceneError> {
        Ok(())
    }

    fn compare_bottom<S: Scorable>(&mut self, _doc: i32, _scorer: &mut S) -> Result<i32, LuceneError> {
        Ok(0)
    }

    fn compare_top<S: Scorable>(&mut self, _doc: i32, _scorer: &mut S) -> Result<i32, LuceneError> {
        Ok(0)
    }

    fn copy<S: Scorable>(&mut self, _slot: i32, _doc: i32, _scorer: &mut S) -> Result<(), LuceneError> {
        Ok(())
    }

    fn set_scorer<S: Scorable>(&mut self, scorer: &mut S) -> Result<(), LuceneError> {
        self.at = scorer.score()?;
        self.note(&format!("scorer {}", self.at));
        Ok(())
    }

    fn set_hits_threshold_reached(&mut self) -> Result<(), LuceneError> {
        self.note("threshold");
        Ok(())
    }

    fn competitive_iterator(&mut self) -> Result<Option<Box<dyn DocIdSetIterator>>, LuceneError> {
        Ok(Some(Box::new(Docs { docs: vec![self.at], at: -1 })))
    }

    fn set_single_sort(&mut self) {
        self.note("single");
    }
}

struct Telling {
    log: Rc<RefCell<Vec<String>>>,
    name: &'static str,
}

impl FieldComparatorSource for Telling {
    type C = Told;

    fn creates(&self, _fieldname: Sequence<char>, _num_hits: Integer, _pruning: Pruning, _reversed: bool, _comparator: Self::C) -> bool {
        unreachable!()
    }

    fn infallible(&self) -> bool {
        unreachable!()
    }

    fn new_comparator(
        &self,
        _fieldname: &str,
        _num_hits: usize,
        _pruning: Pruning,
        _reversed: bool,
    ) -> Result<Told, LuceneError> {
        Ok(Told { at: 0, log: Rc::clone(&self.log), name: self.name })
    }
}

#[test]
fn comparators_are_told_of_the_search() {
    let log = Rc::new(RefCell::new(vec![]));
    let field = |name: &'static str| SortField {
        field: name.to_string(),
        reverse: false,
        source: Telling { log: Rc::clone(&log), name },
    };
    let mut queue = FieldValueHitQueue::create(vec![field("a"), field("b")], 1).unwrap();
    queue.set_scorer(&mut Fixed(7)).unwrap();
    queue.set_hits_threshold_reached().unwrap();
    for comparator in queue.get_comparators_mut() {
        comparator.set_single_sort();
        comparator.disable_skipping();
    }
    assert_eq!(*log.borrow(), ["a scorer 7", "b scorer 7", "a threshold", "a single", "b single"]);
    let competitive = queue.competitive_iterator().unwrap().unwrap();
    assert_eq!(drain(competitive), vec![7]);
    let mut queue = FieldValueHitQueue::create(vec![by_relevance(false)], 1).unwrap();
    queue.set_scorer(&mut Fixed(7)).unwrap();
    queue.set_hits_threshold_reached().unwrap();
    assert!(queue.competitive_iterator().unwrap().is_none());
    queue.get_comparators_mut()[0].set_single_sort();
}

fn leaf_node(points: &[(i64, i32)]) -> PointNode {
    PointNode {
        min: points.first().unwrap().0,
        max: points.last().unwrap().0,
        points: points.to_vec(),
        children: vec![],
    }
}

fn tree() -> PointNode {
    let left = leaf_node(&[(1, 0), (3, 1), (3, 2)]);
    let right = leaf_node(&[(3, 3), (8, 4)]);
    PointNode { min: 1, max: 8, points: vec![], children: vec![left, right] }
}

#[test]
fn points_are_found_by_their_values() {
    assert_eq!(next_doc(&tree(), 3, true, false), 1);
    assert_eq!(next_doc(&tree(), 3, true, true), 3);
    assert_eq!(next_doc(&tree(), 3, false, false), 4);
    assert_eq!(next_doc(&tree(), 8, false, false), -1);
    assert_eq!(next_doc(&tree(), 0, true, false), 0);
}

fn sort(reverse: bool) -> IndexSortField {
    IndexSortField {
        field: Some("f".to_string()),
        reverse,
        field_type: SortFieldType::Long,
        missing: Some(MissingValue::Long(-5)),
    }
}

fn sorted_leaf(points: Option<PointValues>) -> SortedLeaf {
    SortedLeaf {
        max_doc: 5,
        has_deletions: false,
        single_valued_numeric: true,
        sort_field: Some(sort(false)),
        points,
    }
}

fn all_points() -> PointValues {
    PointValues {
        num_dimensions: 1,
        bytes_per_dimension: 8,
        size: 5,
        doc_count: 5,
        bounds: Some((1, 8)),
        tree: tree(),
    }
}

struct Lookup(Vec<i64>);

impl ValueLookup for Lookup {
    fn values(&self) -> Sequence<i64> {
        unreachable!()
    }

    fn infallible(&self) -> bool {
        unreachable!()
    }

    fn value(&mut self, doc: i32) -> Result<i64, LuceneError> {
        Ok(self.0[doc as usize])
    }
}

fn between(lower: i64, upper: i64) -> IndexSortSortedNumericDocValuesRangeQuery<u8> {
    IndexSortSortedNumericDocValuesRangeQuery::new("f".to_string(), lower, upper, 1)
}

#[test]
fn ranges_of_a_sorted_index_are_counted() {
    let mut values = Lookup(vec![1, 3, 3, 3, 8]);
    let with_points = sorted_leaf(Some(all_points()));
    let without = sorted_leaf(None);
    for (lower, upper, n) in [(3, 3, 3), (2, 8, 4), (1, 8, 5), (9, 20, 0), (4, 7, 0), (5, 2, 0)] {
        assert_eq!(between(lower, upper).count(&with_points, &mut values).unwrap(), Some(n));
        assert_eq!(between(lower, upper).count(&without, &mut values).unwrap(), Some(n));
    }
    assert_eq!(between(-5, 4).count(&without, &mut values).unwrap(), None);
    let deleted = SortedLeaf { has_deletions: true, ..sorted_leaf(None) };
    assert_eq!(between(1, 2).count(&deleted, &mut values).unwrap(), None);
    let unsorted = SortedLeaf { sort_field: None, ..sorted_leaf(None) };
    assert!(between(1, 2).doc_id_set_iterator_or_none(&unsorted, &mut values).unwrap().is_none());
}

#[test]
fn bounds_that_points_do_not_hold_are_narrowed() {
    let tree = leaf_node(&[(0, 0), (2, 1), (3, 2), (7, 3)]);
    let points = |doc_count: i32| PointValues {
        num_dimensions: 1,
        bytes_per_dimension: 4,
        size: doc_count as i64,
        doc_count,
        bounds: Some((0, 7)),
        tree: leaf_node(&tree.points),
    };
    let leaf = |doc_count: i32| SortedLeaf { max_doc: 4, ..sorted_leaf(Some(points(doc_count))) };
    let mut values = Lookup(vec![0, 2, 3, 7]);
    let text = "minDoc must be < maxDoc but got minDoc=3 maxDoc=1";
    let reversed = between(5, (1 << 32) + 1);
    assert_eq!(illegal_argument(reversed.count(&leaf(4), &mut values)), text);
    assert_eq!(illegal_argument(reversed.doc_id_set_iterator_from_bkd(&leaf(4))), text);
    assert_eq!(
        illegal_argument(reversed.doc_id_set_iterator_or_none(&leaf(4), &mut values)),
        text
    );
    let sparse = reversed.doc_id_set_iterator_from_bkd(&leaf(3)).unwrap().unwrap();
    assert!(matches!(sparse, IteratorAndCount::SparseRange(3, 1)));
    let it = sparse.into_iterator(Docs { docs: vec![0, 1, 2, 3], at: -1 }).unwrap();
    assert_eq!(it.cost(), -2);
    assert_eq!(drain(it), Vec::<i32>::new());
    assert_eq!(between(2, (1 << 32) + 3).count(&leaf(4), &mut values).unwrap(), Some(2));
    assert!(IteratorAndCount::dense_range(-1, 2).is_err());
}

struct Docs {
    docs: Vec<i32>,
    at: i32,
}

impl DocIdSetIterator for Docs {
    fn view(&self) -> DocIds {
        unreachable!()
    }

    fn inv(&self) -> bool {
        unreachable!()
    }

    fn infallible(&self) -> bool {
        unreachable!()
    }

    fn reported_cost(&self) -> i64 {
        unreachable!()
    }

    fn doc_id(&self) -> i32 {
        self.at
    }

    fn next_doc(&mut self) -> Result<i32, LuceneError> {
        self.advance(self.at + 1)
    }

    fn advance(&mut self, target: i32) -> Result<i32, LuceneError> {
        self.at = *self.docs.iter().find(|d| **d >= target).unwrap_or(&NO_MORE_DOCS);
        Ok(self.at)
    }

    fn cost(&self) -> i64 {
        self.docs.len() as i64
    }
}

fn drain<I: DocIdSetIterator>(mut it: I) -> Vec<i32> {
    let mut out = vec![];
    loop {
        match it.next_doc().unwrap() {
            NO_MORE_DOCS => return out,
            doc => out.push(doc),
        }
    }
}

#[test]
fn documents_outside_the_bounds_are_left_out() {
    let docs = || Docs { docs: vec![1, 4, 6, 9], at: -1 };
    assert_eq!(drain(BoundedDocIdSetIterator::new(2, 9, docs())), vec![4, 6]);
    let mut it = BoundedDocIdSetIterator::new(2, 9, docs());
    assert_eq!(it.advance(5).unwrap(), 6);
    assert_eq!(it.advance(7).unwrap(), NO_MORE_DOCS);
}

#[test]
fn ranges_of_a_sorted_index_are_iterated() {
    let mut values = Lookup(vec![1, 3, 3, 3, 8]);
    let docs = || Docs { docs: vec![0, 2, 3], at: -1 };
    let mut found = |q: IndexSortSortedNumericDocValuesRangeQuery<u8>, leaf: SortedLeaf| {
        q.doc_id_set_iterator_or_none(&leaf, &mut values).unwrap().unwrap()
    };
    let dense = found(between(2, 4), sorted_leaf(Some(all_points())));
    assert!(matches!(dense, IteratorAndCount::DenseRange(1, 4)));
    assert_eq!(dense.count(), 3);
    assert_eq!(drain(dense.into_iterator(docs()).unwrap()), vec![1, 2, 3]);
    let mut it = dense.into_iterator(docs()).unwrap();
    it.next_doc().unwrap();
    assert_eq!((it.doc_id(), it.doc_id_run_end().unwrap()), (1, 4));
    let some = PointValues { doc_count: 4, size: 4, ..all_points() };
    let sparse = found(between(2, 4), sorted_leaf(Some(some)));
    assert_eq!(sparse.count(), -1);
    assert_eq!(drain(sparse.into_iterator(docs()).unwrap()), vec![2, 3]);
    let mut it = sparse.into_iterator(docs()).unwrap();
    it.next_doc().unwrap();
    assert_eq!((it.doc_id(), it.doc_id_run_end().unwrap()), (2, 3));
    let all = found(between(1, 8), sorted_leaf(Some(all_points())));
    assert_eq!(drain(all.into_iterator(docs()).unwrap()), vec![0, 1, 2, 3, 4]);
    let mut it = all.into_iterator(docs()).unwrap();
    it.advance(2).unwrap();
    assert_eq!((it.doc_id(), it.doc_id_run_end().unwrap()), (2, 5));
    let none = found(between(9, 1), sorted_leaf(None));
    assert_eq!(drain(none.into_iterator(docs()).unwrap()), Vec::<i32>::new());
}

#[test]
fn range_queries_are_rendered_and_rewritten() {
    assert_eq!(between(-2, 7).to_query_string("f"), "[-2 TO 7]");
    assert_eq!(between(-2, 7).to_query_string("g"), "f:[-2 TO 7]");
    assert_eq!(between(1, 2).get_field(), "f");
    assert_eq!((between(1, 2).lower_value(), between(1, 2).upper_value()), (1, 2));
    assert_eq!(*between(1, 2).get_fallback_query(), 1);
    assert!(between(1, 2).query_eq(&between(1, 2), true));
    assert!(!between(1, 2).query_eq(&between(1, 3), true));
    match between(i64::MIN, i64::MAX).rewrite(None, false) {
        RangeRewrite::FieldExists(f) => assert_eq!(f, "f"),
        _ => panic!(),
    }
    assert!(matches!(between(1, 2).rewrite(Some(3), true), RangeRewrite::MatchAll));
    assert!(matches!(between(1, 2).rewrite(None, false), RangeRewrite::Unchanged));
    match between(1, 2).rewrite(Some(3), false) {
        RangeRewrite::Rewritten(q) => assert_eq!((q.fallback_query, q.lower), (3, 1)),
        _ => panic!(),
    }
}

/// What happens in a search, in order.
type Log = Arc<Mutex<Vec<String>>>;

/// What the scoring of a leaf fails with.
type Ending = fn(u64) -> Option<CollectionError>;

#[derive(Clone)]
struct LoggedQuery {
    log: Log,
    rewrites: u32,
    clauses: u32,
    ending: Ending,
}

/// Matches the even documents, each with the score after its number, but none of a leaf with two
/// documents.
struct LoggedWeight {
    log: Log,
    ending: Ending,
}

/// Scores the matches in a leaf, and those that follow it.
struct LoggedMatches {
    log: Log,
    ending: Ending,
    leaf: u64,
    max_doc: i32,
    top_level: bool,
}

impl ScorerSupplier for LoggedMatches {
    type S = ListScorer;
    type B = LoggedMatches;

    fn reported_cost(&self) -> i64 {
        unreachable!()
    }

    fn top_level(&self) -> bool {
        unreachable!()
    }

    fn supplied(&self, _lead_cost: i64) -> Self::S {
        unreachable!()
    }

    fn bulk_supplied(&self) -> Self::B {
        unreachable!()
    }

    fn infallible(&self) -> bool {
        unreachable!()
    }

    fn cost(&self) -> i64 {
        0
    }

    fn get(&mut self, _lead_cost: i64) -> Result<ListScorer, LuceneError> {
        Ok(list(&[]))
    }

    fn bulk_scorer(&mut self) -> Result<LoggedMatches, LuceneError> {
        assert!(self.top_level);
        let log = Arc::clone(&self.log);
        Ok(LoggedMatches { log, top_level: true, ..*self })
    }

    fn set_top_level_scoring_clause(&mut self) -> Result<(), LuceneError> {
        self.top_level = true;
        Ok(())
    }
}

impl BulkScorer for LoggedMatches {
    fn remaining(&self) -> Table<Integer, i32> {
        unreachable!()
    }

    fn inv(&self) -> bool {
        unreachable!()
    }

    fn infallible(&self) -> bool {
        unreachable!()
    }

    fn reported_cost(&self) -> i64 {
        unreachable!()
    }

    fn last_next(&self) -> Integer {
        unreachable!()
    }

    fn cost(&self) -> i64 {
        0
    }

    fn score<C: ScoreCollector, B: Bits>(
        &mut self,
        collector: &mut C,
        accept_docs: Option<&B>,
        min: i32,
        max: i32,
    ) -> Result<i32, CollectionError> {
        self.log.lock().unwrap().push(format!("score {} {} {}", self.leaf, min, max));
        if let Some(e) = (self.ending)(self.leaf) {
            return Err(e);
        }
        for doc in (min..max.min(self.max_doc)).filter(|doc| doc % 2 == 0) {
            if accept_docs.map_or(true, |bits| bits.get(doc as usize)) {
                collector.collect(doc, doc + 1)?;
            }
        }
        Ok(if max < self.max_doc { max } else { NO_MORE_DOCS })
    }
}

impl Query for LoggedQuery {
    fn rank(&self) -> Natural {
        unreachable!()
    }

    fn next_form(&self) -> Option<Self> {
        unreachable!()
    }

    fn num_clauses(&self) -> Natural {
        unreachable!()
    }

    fn infallible(&self) -> bool {
        unreachable!()
    }

    fn rewriting_gets_closer(&self) {
        unreachable!()
    }

    fn rewrite(&self) -> Result<Option<LoggedQuery>, LuceneError> {
        if self.rewrites == 0 {
            return Ok(None);
        }
        Ok(Some(LoggedQuery { rewrites: self.rewrites - 1, ..self.clone() }))
    }

    fn visit(&self, visitor: &mut NumClausesCheckVisitor) {
        for _ in 0..self.clauses {
            visitor.count_one();
        }
    }
}

impl SearchableQuery for LoggedQuery {
    type W = LoggedWeight;

    fn weight(&self, _mode: ScoreMode, _boost: i32) -> Self::W {
        unreachable!()
    }

    fn preparable(&self) -> bool {
        unreachable!()
    }

    fn create_weight(&self, mode: ScoreMode, boost: i32) -> Result<Arc<LoggedWeight>, LuceneError> {
        assert_eq!(boost, UNIT_BOOST);
        self.log.lock().unwrap().push(format!("weight {:?} {}", mode, self.rewrites));
        Ok(Arc::new(LoggedWeight { log: Arc::clone(&self.log), ending: self.ending }))
    }
}

impl Weight for LoggedWeight {
    type P = LoggedMatches;

    fn explained(&self, _ctx: LeafReaderContext, _doc: i32) -> Result<Explanation, LuceneError> {
        unreachable!()
    }

    fn supplier(&self, _ctx: LeafReaderContext) -> Result<Option<Self::P>, LuceneError> {
        unreachable!()
    }

    fn explain(&self, ctx: &LeafReaderContext, doc: i32) -> Result<Explanation, LuceneError> {
        Ok(Explanation::no_match(format!("leaf {} doc {}", ctx.id, doc), vec![]))
    }

    fn scorer_supplier(&self, ctx: &LeafReaderContext) -> Result<Option<LoggedMatches>, LuceneError> {
        if ctx.max_doc == 2 {
            return Ok(None);
        }
        let log = Arc::clone(&self.log);
        let (leaf, max_doc) = (ctx.id, ctx.max_doc);
        Ok(Some(LoggedMatches { log, ending: self.ending, leaf, max_doc, top_level: false }))
    }
}

struct LoggedCollector {
    log: Log,
    number: usize,
    mode: ScoreMode,
    /// The collection of a leaf ends with the document after so many.
    limit: usize,
}

fn collector(log: &Log) -> LoggedCollector {
    let mode = ScoreMode::COMPLETE;
    LoggedCollector { log: Arc::clone(log), number: 0, mode, limit: usize::MAX }
}

impl Collector<LoggedWeight> for LoggedCollector {
    type L = Scores;

    fn events(&self) -> Sequence<SearchEvent<LoggedWeight>> {
        unreachable!()
    }

    fn mode(&self) -> ScoreMode {
        unreachable!()
    }

    fn reliable(&self) -> bool {
        unreachable!()
    }

    fn score_mode(&self) -> ScoreMode {
        self.mode
    }

    fn set_weight(&mut self, _weight: &Arc<LoggedWeight>) {
        self.log.lock().unwrap().push(format!("set {}", self.number));
    }

    fn get_leaf_collector(&mut self, ctx: &LeafReaderContext) -> Result<Scores, CollectionError> {
        if ctx.id == 13 {
            return Err(CollectionError::CollectionTerminated);
        }
        Ok(Scores { limit: self.limit, ..scores() })
    }

    fn finish(&mut self, ctx: &LeafReaderContext, leaf: Scores) -> Result<(), LuceneError> {
        let seen = match leaf.seen.len() {
            0..=9 => format!("{:?}", leaf.seen),
            n => n.to_string(),
        };
        self.log.lock().unwrap().push(format!("finish {} {}", ctx.id, seen));
        Ok(())
    }
}

struct LoggedManager {
    log: Log,
    made: Mutex<usize>,
    mixed: bool,
}

impl CollectorManager<LoggedWeight> for LoggedManager {
    type C = LoggedCollector;
    type Output = i32;

    fn fresh(&self, _c: Self::C) -> bool {
        unreachable!()
    }

    fn reliable(&self) -> bool {
        unreachable!()
    }

    fn mode(&self) -> ScoreMode {
        unreachable!()
    }

    fn combines(&self, _cs: Sequence<Self::C>, _out: Result<Self::Output, LuceneError>) -> bool {
        unreachable!()
    }

    fn new_collector(&self) -> Result<LoggedCollector, LuceneError> {
        let mut made = self.made.lock().unwrap();
        *made += 1;
        let mode = if self.mixed && *made > 1 {
            ScoreMode::TOP_DOCS
        } else {
            ScoreMode::COMPLETE_NO_SCORES
        };
        Ok(LoggedCollector { number: *made, mode, ..collector(&self.log) })
    }

    fn reduce(&self, collectors: Vec<LoggedCollector>) -> Result<i32, LuceneError> {
        Ok(collectors.len() as i32)
    }
}

struct LoggedCache(Log);

impl QueryCache<LoggedWeight, ()> for LoggedCache {
    fn cached(&self, _weight: LoggedWeight, _policy: ()) -> LoggedWeight {
        unreachable!()
    }

    fn do_cache(&self, weight: Arc<LoggedWeight>, _policy: Arc<()>) -> Arc<LoggedWeight> {
        self.0.lock().unwrap().push("cache".to_string());
        weight
    }
}

/// The time is over when it is asked for once more than so often.
struct Clock(Mutex<u32>);

impl QueryTimeout for Clock {
    fn should_exit(&self) -> bool {
        let mut left = self.0.lock().unwrap();
        if *left == 0 {
            return true;
        }
        *left -= 1;
        false
    }
}

type Searcher = IndexSearcher<(), LoggedCache, (), Clock, ()>;

fn leaf(id: u64, doc_base: i32, max_doc: i32) -> Arc<LeafReaderContext> {
    Arc::new(LeafReaderContext { id, doc_base, max_doc, live_docs: None })
}

fn reader(sizes: &[i32]) -> Arc<IndexReader> {
    let mut base = 0;
    let mut leaves = vec![];
    for (i, size) in sizes.iter().enumerate() {
        leaves.push(leaf(10 + i as u64, base, *size));
        base += size;
    }
    Arc::new(IndexReader { description: "reader".to_string(), max_doc: base, leaves })
}

fn query(log: &Log) -> LoggedQuery {
    LoggedQuery { log: Arc::clone(log), rewrites: 2, clauses: 1, ending: |_| None }
}

fn manager(log: &Log, mixed: bool) -> LoggedManager {
    LoggedManager { log: Arc::clone(log), made: Mutex::new(0), mixed }
}

fn lines(log: &Log) -> Vec<String> {
    std::mem::take(&mut *log.lock().unwrap())
}

fn defaults() -> SearchDefaults<(), LoggedCache, ()> {
    SearchDefaults::new(Arc::new(()))
}

#[test]
fn ranges_of_leaves_are_checked() {
    let ctx = leaf(1, 0, 10);
    let part = LeafReaderContextPartition::create_from_and_to(Arc::clone(&ctx), 2, 5).unwrap();
    assert_eq!(part.max_docs(), 3);
    let whole = LeafReaderContextPartition::create_for_entire_segment(Arc::clone(&ctx)).unwrap();
    assert_eq!((whole.min_doc_id, whole.max_doc_id, whole.max_docs()), (0, NO_MORE_DOCS, 10));
    for (min, max, text) in [
        (5, 5, "minDocId is greater than or equal to maxDocId: [5] > [5]"),
        (-1, 5, "minDocId is lower than 0: [-1]"),
        (10, 12, "minDocId is greater than than maxDoc: [10] > [10]"),
    ] {
        let r = LeafReaderContextPartition::create_from_and_to(Arc::clone(&ctx), min, max);
        assert_eq!(illegal_argument(r), text);
    }
}

fn ids(slices: &[LeafSlice]) -> Vec<Vec<(u64, i32, i32)>> {
    slices
        .iter()
        .map(|s| s.partitions.iter().map(|p| (p.ctx.id, p.min_doc_id, p.max_doc_id)).collect())
        .collect()
}

#[test]
fn leaves_are_divided_into_slices() {
    let leaves = reader(&[3, 20, 5, 4]).leaves.clone();
    let slices = Searcher::compute_slices(&leaves, 8, 2, false).unwrap();
    let end = NO_MORE_DOCS;
    assert_eq!(
        ids(&slices),
        vec![vec![(11, 0, end)], vec![(12, 0, end)], vec![(10, 0, end), (13, 0, end)]]
    );
    assert_eq!(slices[1].get_max_docs(), 5);
    assert_eq!(slices[2].get_max_docs(), 7);
    let slices = Searcher::compute_slices(&leaves, 8, 2, true).unwrap();
    assert_eq!(
        ids(&slices),
        vec![
            vec![(11, 0, 6)],
            vec![(11, 6, 12)],
            vec![(11, 12, 20)],
            vec![(12, 0, end)],
            vec![(10, 0, end), (13, 0, end)]
        ]
    );
    let slices = Searcher::compute_slices(&reader(&[3, 2]).leaves, 4, 9, false).unwrap();
    assert_eq!(ids(&slices), vec![vec![(10, 0, end)], vec![(11, 0, end)]]);
    assert_eq!(ids(&Searcher::default_slices(&leaves).unwrap()).len(), 1);
}

#[test]
fn searchers_without_executor_have_one_slice() {
    let mut searcher = Searcher::new(reader(&[3, 4]), &defaults()).unwrap();
    assert_eq!(searcher.get_slices().unwrap().len(), 1);
    assert_eq!(searcher.get_leaf_contexts().len(), 2);
    let nested = Arc::new(IndexReaderContext { reader: reader(&[1]), is_top_level: false });
    assert_eq!(
        illegal_argument(Searcher::from_context(nested, None, &defaults())),
        "IndexSearcher's ReaderContext must be topLevel for reader reader"
    );
}

#[test]
fn whole_index_is_searched_leaf_by_leaf() {
    let log = Log::default();
    let mut searcher = Searcher::new(reader(&[3, 4, 2, 7]), &defaults()).unwrap();
    let mut collector = collector(&log);
    searcher.search_with_collector(query(&log), &mut collector, &defaults()).unwrap();
    assert_eq!(
        lines(&log),
        vec![
            "weight COMPLETE 0",
            "set 0",
            "score 10 0 2147483647",
            "finish 10 [(0, 1), (2, 3)]",
            "score 11 0 2147483647",
            "finish 11 [(0, 1), (2, 3)]",
            "finish 12 []",
        ]
    );
    assert!(!searcher.timed_out());
}

#[test]
fn time_limits_make_results_partial() {
    let log = Log::default();
    let mut searcher = Searcher::new(reader(&[300]), &defaults()).unwrap();
    searcher.set_timeout(Some(Arc::new(Clock(Mutex::new(3)))));
    assert!(searcher.get_timeout().is_some());
    let all = searcher.search_with_manager(query(&log), &manager(&log, false), &defaults());
    assert_eq!(all.unwrap(), 1);
    assert!(!searcher.timed_out());
    assert_eq!(
        lines(&log)[2..],
        ["score 10 0 100", "score 10 100 250", "score 10 250 475", "finish 10 150"]
    );
    searcher.set_timeout(Some(Arc::new(Clock(Mutex::new(2)))));
    let some = searcher.search_with_manager(query(&log), &manager(&log, false), &defaults());
    assert_eq!(some.unwrap(), 1);
    assert!(searcher.timed_out());
    assert_eq!(lines(&log)[2..], ["score 10 0 100", "score 10 100 250", "finish 10 125"]);
}

#[test]
fn deleted_documents_are_not_collected() {
    let log = Log::default();
    let mut live = FixedBitSet::new(6);
    for doc in [0, 1, 3, 4] {
        live.set(doc);
    }
    let ctx =
        Arc::new(LeafReaderContext { id: 10, doc_base: 0, max_doc: 6, live_docs: Some(live) });
    let mut searcher = Searcher::new(reader(&[6]), &defaults()).unwrap();
    let weight = Arc::new(LoggedWeight { log: Arc::clone(&log), ending: |_| None });
    let mut collector = collector(&log);
    searcher.search_leaf(&ctx, 0, NO_MORE_DOCS, &weight, &mut collector).unwrap();
    assert_eq!(lines(&log), vec!["score 10 0 2147483647", "finish 10 [(0, 1), (4, 5)]"]);
    searcher.search_leaf(&ctx, 5, 2, &weight, &mut collector).unwrap();
    assert_eq!(lines(&log), vec!["score 10 5 5", "finish 10 []"]);
}

#[test]
fn ended_leaves_hold_the_first_documents() {
    let log = Log::default();
    let mut searcher = Searcher::new(reader(&[9]), &defaults()).unwrap();
    let weight = Arc::new(LoggedWeight { log: Arc::clone(&log), ending: |_| None });
    let mut ending = LoggedCollector { limit: 2, ..collector(&log) };
    searcher.search_leaf(&leaf(10, 0, 9), 1, 8, &weight, &mut ending).unwrap();
    assert_eq!(lines(&log), vec!["score 10 1 8", "finish 10 [(2, 3), (4, 5)]"]);
    searcher.set_timeout(Some(Arc::new(Clock(Mutex::new(9)))));
    searcher.search_leaf(&leaf(10, 0, 9), 3, 8, &weight, &mut ending).unwrap();
    assert_eq!(lines(&log), vec!["score 10 3 8", "finish 10 [(4, 5), (6, 7)]"]);
    assert!(!searcher.timed_out());
}

#[test]
fn leaves_without_documents_are_scored() {
    let log = Log::default();
    let mut searcher = Searcher::new(reader(&[9]), &defaults()).unwrap();
    let weight = Arc::new(LoggedWeight {
        log: Arc::clone(&log),
        ending: |_| Some(CollectionError::Failed(LuceneError::IllegalState("broken".to_string()))),
    });
    let r = searcher.search_leaf(&leaf(10, 0, 0), 0, NO_MORE_DOCS, &weight, &mut collector(&log));
    assert!(matches!(r, Err(LuceneError::IllegalState(m)) if m == "broken"));
    assert_eq!(lines(&log), vec!["score 10 0 2147483647"]);
}

struct Opened;

impl StoredFieldsReader for Opened {
    type Fields = String;

    fn stored_fields(&self, index: &IndexReader) -> Result<String, LuceneError> {
        if index.max_doc == 0 {
            return Err(LuceneError::IllegalState("no documents".to_string()));
        }
        Ok(format!("{} of {}", index.max_doc, index.description))
    }
}

#[test]
fn stored_fields_are_those_of_the_index() {
    let searcher = Searcher::new(reader(&[3, 4]), &defaults()).unwrap();
    assert_eq!(searcher.stored_fields(&Opened).unwrap(), "7 of reader");
    let searcher = Searcher::new(reader(&[]), &defaults()).unwrap();
    assert!(searcher.stored_fields(&Opened).is_err());
}

#[test]
fn failures_end_a_search() {
    let log = Log::default();
    let mut searcher = Searcher::new(reader(&[3, 4, 5]), &defaults()).unwrap();
    let failing = LoggedQuery {
        ending: |id| match id {
            10 => Some(CollectionError::CollectionTerminated),
            _ => Some(CollectionError::Failed(LuceneError::IllegalState("broken".to_string()))),
        },
        ..query(&log)
    };
    match searcher.search_with_manager(failing, &manager(&log, false), &defaults()) {
        Err(LuceneError::IllegalState(m)) => assert_eq!(m, "broken"),
        _ => panic!(),
    }
    assert!(!searcher.timed_out());
    assert_eq!(lines(&log)[2..], ["score 10 0 2147483647", "finish 10 []", "score 11 0 2147483647"]);
}

#[test]
fn each_slice_has_a_collector() {
    let log = Log::default();
    let sizes = [300_000, 300_000];
    let mut searcher = Searcher::with_executor(reader(&sizes), Some(()), &defaults()).unwrap();
    assert_eq!(
        searcher.search_with_manager(query(&log), &manager(&log, false), &defaults()).unwrap(),
        2
    );
    assert_eq!(lines(&log)[0], "weight COMPLETE_NO_SCORES 0");
    match searcher.search_with_manager(query(&log), &manager(&log, true), &defaults()) {
        Err(LuceneError::IllegalState(m)) => assert_eq!(m, MODES_DIFFER),
        _ => panic!(),
    }
    assert!(check_score_mode(ScoreMode::COMPLETE, ScoreMode::COMPLETE).is_ok());
    let mut seen = 0;
    let count = searcher
        .count(
            query(&log),
            |slices: &[LeafSlice]| {
                assert_eq!(slices.len(), 2);
                manager(&log, false)
            },
            &defaults(),
        )
        .unwrap();
    seen += count;
    assert_eq!(seen, 2);
}

#[test]
fn queries_without_scores_are_cached() {
    let log = Log::default();
    let mut searcher = Searcher::new(reader(&[3]), &defaults()).unwrap();
    searcher.set_query_cache(Some(Arc::new(LoggedCache(Arc::clone(&log)))));
    assert!(searcher.get_query_cache().is_some());
    searcher.create_weight(&query(&log), ScoreMode::COMPLETE_NO_SCORES, UNIT_BOOST).unwrap();
    assert_eq!(lines(&log).len(), 1);
    searcher.set_query_caching_policy(Arc::new(()));
    searcher.create_weight(&query(&log), ScoreMode::COMPLETE_NO_SCORES, UNIT_BOOST).unwrap();
    assert_eq!(lines(&log)[1], "cache");
    searcher.create_weight(&query(&log), ScoreMode::COMPLETE, UNIT_BOOST).unwrap();
    assert_eq!(lines(&log).len(), 1);
}

#[test]
fn searchers_start_with_the_defaults() {
    let log = Log::default();
    let mut shared = defaults();
    assert!(Searcher::get_default_query_cache(&shared).is_none());
    assert!(Searcher::get_default_query_caching_policy(&shared).is_none());
    Searcher::set_default_query_cache(&mut shared, Some(Arc::new(LoggedCache(log))));
    Searcher::set_default_query_caching_policy(&mut shared, Some(Arc::new(())));
    assert!(Searcher::get_default_query_cache(&shared).is_some());
    assert_eq!(*Searcher::get_default_similarity(&shared), ());
    let index = reader(&[3]);
    let mut searcher = Searcher::new(Arc::clone(&index), &shared).unwrap();
    assert!(searcher.get_query_cache().is_some());
    assert!(searcher.get_query_caching_policy().is_some());
    assert!(Arc::ptr_eq(searcher.get_index_reader(), &index));
    assert!(searcher.get_top_reader_context().is_top_level);
    assert!(matches!(searcher.get_task_executor(), TaskExecutor::SameThread));
    let similarity = Arc::new(());
    searcher.set_similarity(Arc::clone(&similarity));
    assert!(Arc::ptr_eq(searcher.get_similarity(), &similarity));
}

#[test]
fn given_ranges_are_searched() {
    let log = Log::default();
    let mut searcher = Searcher::new(reader(&[9]), &defaults()).unwrap();
    let weight = Arc::new(LoggedWeight { log: Arc::clone(&log), ending: |_| None });
    let mut collector = collector(&log);
    let ctx = leaf(10, 0, 9);
    let ranges = vec![
        LeafReaderContextPartition::create_from_and_to(Arc::clone(&ctx), 2, 5).unwrap(),
        LeafReaderContextPartition::create_from_and_to(ctx, 5, 9).unwrap(),
    ];
    searcher.search_partitions(&ranges, &weight, &mut collector).unwrap();
    assert_eq!(
        lines(&log),
        vec![
            "set 0",
            "score 10 2 5",
            "finish 10 [(2, 3), (4, 5)]",
            "score 10 5 9",
            "finish 10 [(6, 7), (8, 9)]",
        ]
    );
}

#[test]
fn best_hits_are_capped_at_the_number_of_documents() {
    let log = Log::default();
    let mut searcher = Searcher::new(reader(&[3]), &defaults()).unwrap();
    let n = searcher
        .search(
            query(&log),
            50,
            |hits, after: Option<ScoreDoc>, threshold| {
                assert_eq!((hits, after.is_none(), threshold), (3, true, TOTAL_HITS_THRESHOLD));
                Ok(manager(&log, false))
            },
            &defaults(),
        )
        .unwrap();
    assert_eq!(n, 1);
    let after = Some(ScoreDoc { doc: 3, score: 0, shard_index: -1 });
    let r = searcher.search_after(
        after,
        query(&log),
        1,
        |_, _, _| Ok(manager(&log, false)),
        &defaults(),
    );
    assert_eq!(
        illegal_argument(r),
        "after.doc exceeds the number of documents in the reader: after.doc=3 limit=3"
    );
    let mut fresh = Searcher::with_executor(reader(&[3]), Some(()), &defaults()).unwrap();
    let with_after =
        fresh.search_after(after, query(&log), 1, |_, _, _| Ok(manager(&log, false)), &defaults());
    assert!(with_after.is_err());
    assert!(fresh.leaf_slices.is_none() && !fresh.partial_result);
    let within = Some(ScoreDoc { doc: 2, score: 0, shard_index: -1 });
    assert_eq!(searcher.check_after(within, 2).unwrap(), 2);
}

#[test]
fn clauses_are_limited() {
    let log = Log::default();
    let mut defaults = defaults();
    let searcher = Searcher::new(reader(&[3]), &defaults).unwrap();
    assert_eq!(Searcher::get_max_clause_count(&defaults), DEFAULT_MAX_CLAUSE_COUNT);
    assert_eq!(
        illegal_argument(Searcher::set_max_clause_count(&mut defaults, 0)),
        "maxClauseCount must be >= 1"
    );
    Searcher::set_max_clause_count(&mut defaults, 2).unwrap();
    let with = |clauses| LoggedQuery { clauses, ..query(&log) };
    assert!(searcher.rewrite(with(2), &defaults).is_ok());
    match searcher.rewrite(with(3), &defaults) {
        Err(LuceneError::ResourceLimit(m)) => assert_eq!(
            m,
            "Query contains too many nested clauses; maxClauseCount is set to 2"
        ),
        _ => panic!(),
    }
    assert_eq!(TooManyClauses::new(7).message(), "maxClauseCount is set to 7");
    assert_eq!(TooManyClauses::new(7).get_max_clause_count(), 7);
    let nested = TooManyNestedClauses::new(5);
    assert_eq!(nested.as_too_many_clauses().get_max_clause_count(), 5);
    assert!(matches!(nested.into_lucene_error(), LuceneError::ResourceLimit(_)));
}

#[test]
fn documents_are_explained_by_their_leaf() {
    let log = Log::default();
    let mut live = FixedBitSet::new(4);
    live.set(0);
    let reader = Arc::new(IndexReader {
        description: "reader".to_string(),
        max_doc: 7,
        leaves: vec![
            leaf(1, 0, 3),
            Arc::new(LeafReaderContext { id: 2, doc_base: 3, max_doc: 4, live_docs: Some(live) }),
        ],
    });
    assert_eq!(sub_index_from_leaves(2, &reader.leaves), 0);
    assert_eq!(sub_index_from_leaves(3, &reader.leaves), 1);
    let searcher = Searcher::new(reader, &defaults()).unwrap();
    let explain = |doc| searcher.explain(query(&log), doc, &defaults()).unwrap().description;
    assert_eq!(explain(2), "leaf 1 doc 2");
    assert_eq!(explain(3), "leaf 2 doc 0");
    assert_eq!(explain(4), "Document 4 is deleted");
}

#[test]
fn statistics_are_summed_over_the_leaves() {
    let searcher = Searcher::new(reader(&[3, 4]), &defaults()).unwrap();
    let one = FieldStatistics { doc_count: 2, sum_total_term_freq: 9, sum_doc_freq: 4 };
    let two = FieldStatistics { doc_count: 1, sum_total_term_freq: 1, sum_doc_freq: 1 };
    let stats =
        searcher.collection_statistics("f".to_string(), &[Some(one), None, Some(two)]).unwrap();
    assert_eq!((stats.max_doc, stats.doc_count), (7, 3));
    assert_eq!((stats.sum_total_term_freq, stats.sum_doc_freq), (10, 5));
    assert!(searcher.collection_statistics("f".to_string(), &[None]).is_none());
    assert_eq!(
        illegal_argument(searcher.term_statistics(b"t".to_vec(), 0, 0)),
        "docFreq must be positive, docFreq: 0"
    );
    let stats = searcher.term_statistics(b"t".to_vec(), 2, 6).unwrap();
    assert_eq!((stats.term, stats.doc_freq, stats.total_term_freq), (b"t".to_vec(), 2, 6));
}
