use std::cell::RefCell;
use std::collections::BTreeMap;
use std::rc::Rc;
use std::sync::Arc;

use rucene::error::LuceneError;
use rucene::search::disi_priority_queue::{
    left_node, parent_node, right_node, DisiPriorityQueue, DisiPriorityQueue2, DisiPriorityQueueN,
};
use rucene::search::disi_wrapper::{DisiWrapper, UNIT_WEIGHT};
use rucene::search::disjunction_disi_approximation::DisjunctionDISIApproximation;
use rucene::search::disjunction_matches_iterator::{
    from_sub_iterators, from_terms, from_terms_enum, BytesRefIterator, DisjunctionMatchesIterator,
    Term, TermPostings, TermsEnumBytesRefIterator,
};
use rucene::search::disjunction_scorer::{cost_weight, DisjunctionScorer};
use rucene::search::disjunction_sum_scorer::DisjunctionSumScorer;
use rucene::search::doc_id_set_iterator::{
    empty, from_iterator_supplier, from_live_docs, range, AcceptDocs, DocIdSetIterator, DocIds,
    NO_MORE_DOCS,
};
use rucene::search::doc_values::{
    BlocksAt, DocValues, DocValuesSkipper, Match, SkipBlocks, ValuesAt,
};
use rucene::search::doc_values_iteration::DocValuesIterator;
use rucene::search::doc_values_range_iterator::{
    build_ordinal_set, DocValuesRangeIterator, ONE_VALUE_COST,
};
use rucene::search::doc_values_rewrite_method::DocValuesScorerSupplier;
use rucene::search::exact_phrase_matcher::{
    merge_impacts, ExactPhraseMatcher, Impact, ImpactLevel, Impacts, ImpactsEnum, PositionsEnum,
};
use rucene::search::filter_matches_iterator::FilterMatchesIterator;
use rucene::search::impacts_disi::{BlockBounds, ImpactsDISI, ScoreBounds};
use rucene::search::matches::{MatchView, MatchesIterator};
use rucene::search::score_mode::ScoreMode;
use rucene::search::scorer::{Matching, Scorer};
use rucene::util::bits::Bits;
use rucene::util::fixed_bit_set::FixedBitSet;
use rucene::util::models::{Integer, Sequence, Table};

struct ListScorer {
    docs: Vec<i32>,
    at: i32,
    confirm_even: bool,
    match_cost: i32,
    asked: Rc<RefCell<Vec<(i32, i32)>>>,
}

fn list(docs: &[i32]) -> ListScorer {
    let asked = Rc::default();
    ListScorer { docs: docs.to_vec(), at: -1, confirm_even: false, match_cost: 0, asked }
}

fn confirming(docs: &[i32], match_cost: i32) -> ListScorer {
    let asked = Rc::default();
    ListScorer { docs: docs.to_vec(), at: -1, confirm_even: true, match_cost, asked }
}

impl Scorer for ListScorer {
    fn view(&self) -> Matching {
        unreachable!()
    }

    fn inv(&self) -> bool {
        unreachable!()
    }

    fn infallible(&self) -> bool {
        unreachable!()
    }

    fn confirmed(&self) -> Sequence<Integer> {
        unreachable!()
    }

    fn doc_id(&self) -> i32 {
        self.at
    }

    fn next_approximation(&mut self) -> Result<i32, LuceneError> {
        self.advance_approximation(self.at + 1)
    }

    fn advance_approximation(&mut self, target: i32) -> Result<i32, LuceneError> {
        self.at = *self.docs.iter().find(|d| **d >= target).unwrap_or(&NO_MORE_DOCS);
        Ok(self.at)
    }

    fn load_approximation(
        &mut self,
        up_to: i32,
        bit_set: &mut FixedBitSet,
        offset: i32,
    ) -> Result<(), LuceneError> {
        if self.at == -1 {
            self.next_approximation()?;
        }
        while self.at < up_to {
            bit_set.set((self.at - offset) as usize);
            self.next_approximation()?;
        }
        Ok(())
    }

    fn cost(&self) -> i64 {
        self.docs.len() as i64
    }

    fn has_two_phase(&self) -> bool {
        self.confirm_even
    }

    fn match_cost(&self) -> i32 {
        self.match_cost
    }

    fn matches(&mut self) -> Result<bool, LuceneError> {
        self.asked.borrow_mut().push((self.at, self.match_cost));
        Ok(!self.confirm_even || self.at % 2 == 0)
    }

    fn hits_run_end(&self) -> Result<i32, LuceneError> {
        let mut end = self.at;
        if !self.confirm_even {
            while self.docs.contains(&end) {
                end += 1;
            }
        }
        Ok(end)
    }
}

#[test]
fn cheapest_clauses_are_asked_first() {
    let asked = Rc::new(RefCell::new(Vec::new()));
    let scorers = [5, 3, 9].map(|cost| ListScorer {
        asked: Rc::clone(&asked),
        ..confirming(&[3, 4], cost)
    });
    let mut scorer =
        DisjunctionScorer::new(Vec::from(scorers), ScoreMode::COMPLETE, i64::MAX, 1).unwrap();
    assert_eq!(scorer.next_doc().unwrap(), 4);
    assert_eq!(asked.borrow().to_vec(), vec![(3, 3), (3, 5), (3, 9), (4, 3)]);
}

fn wrappers(docs: &[i32]) -> Vec<DisiWrapper<ListScorer>> {
    docs.iter()
        .map(|d| {
            let mut w = DisiWrapper::new(list(&[*d]), false);
            w.doc = *d;
            w
        })
        .collect()
}

#[test]
fn wrappers_read_their_scorer_once() {
    let w = DisiWrapper::new(confirming(&[2, 3], 9), true);
    assert_eq!((w.two_phase, w.cost, w.match_cost, w.doc), (true, 2, 9, -1));
    assert_eq!((w.scaled_max_score, w.max_window_score), (0, 0));
    assert_eq!(w.weight, UNIT_WEIGHT);
    assert_eq!(UNIT_WEIGHT, 1.0f32.to_bits() as i32);
    let mut w = DisiWrapper::with_weight(confirming(&[2, 3], 9), false, 5);
    assert_eq!(w.weight, 5);
    assert!(w.has_two_phase());
    w.scorer().advance_approximation(2).unwrap();
    assert_eq!(w.approximation_doc_id(), 2);
    assert!(w.matches().unwrap());
    w.two_phase_view().unwrap().advance_approximation(3).unwrap();
    assert!(!w.matches().unwrap());
    assert_eq!(w.into_scorer().docs, vec![2, 3]);
    assert!(DisiWrapper::new(list(&[2]), false).two_phase_view().is_none());
}

#[test]
fn heap_nodes_are_numbered_by_rows() {
    assert_eq!((left_node(0), right_node(left_node(0))), (1, 2));
    assert_eq!((parent_node(1), parent_node(2), parent_node(5)), (0, 0, 2));
}

#[test]
fn queue_of_wrappers_has_the_least_documents_on_top() {
    let mut ws = wrappers(&[5, 3, 3, 9]);
    let mut queue = DisiPriorityQueueN::new(4);
    queue.add_all(&ws, &[0, 1]);
    assert_eq!(queue.add(&ws, 2), queue.top().unwrap());
    queue.add(&ws, 3);
    let mut top = queue.top_list(&ws);
    top.sort();
    assert_eq!(top, vec![1, 2]);
    let first = queue.top().unwrap();
    assert_eq!(ws[queue.top2(&ws).unwrap()].doc, 3);
    ws[first].doc = 20;
    assert_eq!(ws[queue.update_top(&ws).unwrap()].doc, 3);
    let mut order = vec![];
    while let Some(p) = queue.pop(&ws) {
        order.push(ws[p].doc);
    }
    assert_eq!(order, vec![3, 5, 9, 20]);
    assert_eq!(queue.size(), 0);
}

#[test]
fn queue_of_two_wrappers() {
    let ws = wrappers(&[8, 4, 6]);
    let mut queue = DisiPriorityQueue2::new();
    queue.add_all(&ws, &[0, 1]);
    assert_eq!((queue.top(), queue.top2()), (Some(1), Some(0)));
    assert_eq!(queue.top_list(&ws), vec![1]);
    assert_eq!(queue.update_top_with(&ws, 2), Some(2));
    assert_eq!(queue.pop(), Some(2));
    assert_eq!(queue.entries(), &[0]);
    queue.clear();
    assert_eq!(queue.size(), 0);
    let mut any = DisiPriorityQueue::of_max_size(2);
    any.add(&ws, 0);
    any.add(&ws, 1);
    assert!(matches!(any, DisiPriorityQueue::Two(_)));
    assert!(matches!(DisiPriorityQueue::of_max_size(3), DisiPriorityQueue::N(_)));
    assert_eq!(any.top2(&ws), Some(0));
    assert_eq!(any.pop(&ws), Some(1));
}

#[test]
fn approximation_visits_the_union() {
    let ws = vec![
        DisiWrapper::new(list(&[1, 4, 9]), false),
        DisiWrapper::new(list(&[4, 5]), false),
        DisiWrapper::new(list(&[20]), false),
    ];
    let mut it = DisjunctionDISIApproximation::new(ws, 2);
    assert_eq!(it.len(), 3);
    assert!(!it.is_empty());
    assert_eq!(it.cost(), 6);
    it.wrappers_mut()[2].max_window_score = 8;
    assert_eq!(it.wrapper(2).max_window_score, 8);
    assert_eq!(it.next_doc().unwrap(), 1);
    assert_eq!(it.next_doc().unwrap(), 4);
    assert_eq!(it.top_list().len(), 2);
    assert_eq!(it.advance(6).unwrap(), 9);
    let mut bits = FixedBitSet::new(30);
    it.into_bit_set(30, &mut bits, 0).unwrap();
    assert!(bits.get(9) && bits.get(20));
    assert_eq!(bits.cardinality(), 2);
    assert_eq!(it.doc_id(), NO_MORE_DOCS);
}

#[test]
fn disjunctions_need_two_scorers() {
    match DisjunctionScorer::new(vec![list(&[1])], ScoreMode::COMPLETE, 1, 0) {
        Err(LuceneError::IllegalArgument(m)) => assert_eq!(m, "There must be at least 2 subScorers"),
        _ => panic!(),
    }
}

#[test]
fn disjunction_matches_what_a_clause_matches() {
    let mut scorer = DisjunctionScorer::new(
        vec![list(&[1, 6]), list(&[6, 8])],
        ScoreMode::COMPLETE,
        i64::MAX,
        0,
    )
    .unwrap();
    assert_eq!(scorer.num_clauses(), 2);
    assert!(!scorer.has_two_phase());
    assert_eq!(scorer.next_doc().unwrap(), 1);
    assert_eq!(scorer.sub_matches().unwrap().len(), 1);
    assert_eq!(scorer.next_doc().unwrap(), 6);
    assert_eq!(scorer.sub_matches().unwrap().len(), 2);
    let children = scorer.children().unwrap();
    assert_eq!(children.len(), 2);
    assert_eq!(children[0].relationship, "SHOULD");
    assert_eq!(scorer.advance(7).unwrap(), 8);
    assert_eq!(scorer.next_doc().unwrap(), NO_MORE_DOCS);
}

#[test]
fn disjunction_confirms_candidates() {
    let mut scorer = DisjunctionScorer::new(
        vec![confirming(&[1, 2, 5], 3), confirming(&[5, 8], 1)],
        ScoreMode::COMPLETE_NO_SCORES,
        i64::MAX,
        2,
    )
    .unwrap();
    assert!(scorer.has_two_phase());
    assert_eq!(scorer.match_cost(), 2);
    assert_eq!(scorer.next_doc().unwrap(), 2);
    assert_eq!(scorer.next_doc().unwrap(), 8);
    assert_eq!(scorer.next_doc().unwrap(), NO_MORE_DOCS);
    assert_eq!(cost_weight(0), 1);
    assert_eq!(cost_weight(7), 7);
}

#[test]
fn sum_scores_the_clauses_on_the_document() {
    let mut scorer = DisjunctionSumScorer::new(
        vec![list(&[1, 6]), confirming(&[6, 7], 1)],
        ScoreMode::COMPLETE,
        i64::MAX,
        1,
    )
    .unwrap();
    assert_eq!(scorer.next_doc().unwrap(), 1);
    assert_eq!(scorer.scored_clauses().unwrap().len(), 1);
    assert_eq!(scorer.advance(2).unwrap(), 6);
    let clauses = scorer.scored_clauses().unwrap();
    assert_eq!(clauses.len(), 2);
    assert_eq!(scorer.wrapper(clauses[0]).scorer.doc_id(), 6);
    assert_eq!(scorer.next_doc().unwrap(), NO_MORE_DOCS);
}

/// Values of documents, in increasing order.
#[derive(Clone)]
struct Values {
    table: BTreeMap<i32, Vec<i64>>,
    at: i32,
}

fn values(pairs: &[(i32, &[i64])]) -> Values {
    Values { table: pairs.iter().map(|(d, v)| (*d, v.to_vec())).collect(), at: -1 }
}

impl DocValues for Values {
    fn view(&self) -> ValuesAt {
        unreachable!()
    }

    fn inv(&self) -> bool {
        unreachable!()
    }

    fn infallible(&self) -> bool {
        unreachable!()
    }

    fn doc_id(&self) -> i32 {
        self.at
    }

    fn next_doc(&mut self) -> Result<i32, LuceneError> {
        self.advance(self.at + 1)
    }

    fn advance(&mut self, target: i32) -> Result<i32, LuceneError> {
        self.at = self.table.range(target..).next().map_or(NO_MORE_DOCS, |(d, _)| *d);
        Ok(self.at)
    }

    fn value_count(&mut self) -> Result<usize, LuceneError> {
        Ok(self.table[&self.at].len())
    }

    fn value(&mut self, index: usize) -> Result<i64, LuceneError> {
        Ok(self.table[&self.at][index])
    }
}

/// Blocks of ten documents each.
struct Blocks {
    kinds: Vec<Option<Match>>,
    at: i32,
}

impl SkipBlocks for Blocks {
    fn view(&self) -> BlocksAt {
        unreachable!()
    }

    fn inv(&self) -> bool {
        unreachable!()
    }

    fn infallible(&self) -> bool {
        unreachable!()
    }

    fn doc_id(&self) -> i32 {
        self.at
    }

    fn advance(&mut self, target: i32) -> Result<i32, LuceneError> {
        let mut doc = target;
        loop {
            let block = (doc / 10) as usize;
            if block >= self.kinds.len() {
                self.at = NO_MORE_DOCS;
                break;
            }
            if self.kinds[block].is_some() {
                self.at = doc;
                break;
            }
            doc = (block as i32 + 1) * 10;
        }
        Ok(self.at)
    }

    fn get_match(&self) -> Match {
        self.kinds[(self.at / 10) as usize].unwrap()
    }

    fn block_end(&self) -> i32 {
        (self.at / 10 + 1) * 10
    }

    fn doc_id_run_end(&self) -> Result<i32, LuceneError> {
        Ok(self.block_end())
    }
}

struct Skipper(Values, i32);

impl DocValuesSkipper for Skipper {
    type Blocks = Blocks;

    fn table(&self) -> Table<Integer, Sequence<i64>> {
        unreachable!()
    }

    fn infallible(&self) -> bool {
        unreachable!()
    }

    fn lower_bound(&self) -> i64 {
        unreachable!()
    }

    fn upper_bound(&self) -> i64 {
        unreachable!()
    }

    fn global_min_value(&self) -> i64 {
        *self.0.table.values().flatten().min().unwrap()
    }

    fn global_max_value(&self) -> i64 {
        *self.0.table.values().flatten().max().unwrap()
    }

    fn into_blocks(self, min: i64, max: i64) -> Blocks {
        let kinds = (0..self.1 / 10)
            .map(|block| {
                let docs: Vec<(&i32, &Vec<i64>)> =
                    self.0.table.range(block * 10..block * 10 + 10).collect();
                let all: Vec<i64> = docs.iter().flat_map(|(_, v)| v.to_vec()).collect();
                if all.iter().all(|v| *v < min) || all.iter().all(|v| *v > max) {
                    None
                } else if all.iter().all(|v| min <= *v && *v <= max) {
                    Some(if docs.len() == 10 { Match::Yes } else { Match::YesIfPresent })
                } else {
                    Some(Match::Maybe)
                }
            })
            .collect();
        Blocks { kinds, at: -1 }
    }
}

fn matching(mut it: DocValuesRangeIterator<Values, Blocks>) -> Vec<i32> {
    let mut out = vec![];
    loop {
        let doc = it.next_doc().unwrap();
        if doc == NO_MORE_DOCS {
            return out;
        }
        if it.matches().unwrap() {
            out.push(doc);
        }
    }
}

fn sample() -> Values {
    let mut table: BTreeMap<i32, Vec<i64>> = (0..10).map(|d| (d, vec![5])).collect();
    table.insert(12, vec![1]);
    table.insert(21, vec![5]);
    table.insert(23, vec![6, 20]);
    table.insert(34, vec![0, 9]);
    Values { table, at: -1 }
}

#[test]
fn range_iterators_agree_with_and_without_skipping() {
    let mut expected: Vec<i32> = (0..10).collect();
    expected.extend([21, 23, 34]);
    let plain = DocValuesRangeIterator::for_sorted_numeric_range(sample(), None::<Skipper>, 5, 9);
    assert_eq!(matching(plain), expected);
    let skipping = DocValuesRangeIterator::for_sorted_numeric_range(
        sample(),
        Some(Skipper(sample(), 40)),
        5,
        9,
    );
    assert_eq!(matching(skipping), expected);
    let set = DocValuesRangeIterator::for_sorted_set_ordinal_range(
        sample(),
        Some(Skipper(sample(), 40)),
        5,
        9,
    );
    assert_eq!(matching(set), expected);
}

#[test]
fn single_values_are_matched_by_ranges_and_ordinals() {
    let single = || values(&[(1, &[3]), (4, &[7]), (9, &[8])]);
    let range = DocValuesRangeIterator::for_range(single(), None::<Skipper>, 7, 8);
    assert_eq!(range.match_cost(), ONE_VALUE_COST);
    assert_eq!(matching(range), vec![4, 9]);
    let range = DocValuesRangeIterator::for_ordinal_range(single(), None::<Skipper>, 3, 3);
    assert_eq!(matching(range), vec![1]);
    let set =
        DocValuesRangeIterator::for_ordinal_set(single(), None::<Skipper>, &[3, 8], 10).unwrap();
    assert_eq!(matching(set), vec![1, 9]);
    let many = values(&[(1, &[3, 5]), (4, &[4]), (9, &[0, 8])]);
    let set = DocValuesRangeIterator::for_sorted_set_ordinal_set(many, None::<Skipper>, &[5, 8], 10)
        .unwrap();
    assert_eq!(matching(set), vec![1, 9]);
    let mut bits = FixedBitSet::new(10);
    bits.set(7);
    let set = DocValuesRangeIterator::for_ordinal_set_bits(
        single(),
        None::<Skipper>,
        7,
        7,
        Arc::new(bits),
    );
    assert_eq!(matching(set), vec![4]);
    assert!(matching(DocValuesRangeIterator::empty()).is_empty());
}

#[test]
fn documents_with_a_term_are_provided_once() {
    let mut supplier =
        DocValuesScorerSupplier { ordinals: Some(vec![5, 8]), value_count: 10, cost: 3 };
    assert_eq!(supplier.cost(), 3);
    let many = || values(&[(1, &[3, 5]), (4, &[4]), (9, &[0, 8])]);
    let it = supplier.get(many(), None::<Skipper>).unwrap();
    assert_eq!(matching(it), vec![1, 9]);
    match supplier.get(many(), None::<Skipper>) {
        Err(LuceneError::IllegalState(text)) => {
            assert_eq!(text, "ScorerSupplier.get(long) must be called at most once")
        }
        _ => panic!(),
    }
    let mut supplier =
        DocValuesScorerSupplier { ordinals: Some(vec![5]), value_count: -1, cost: 3 };
    assert!(matches!(
        supplier.get(many(), None::<Skipper>),
        Err(LuceneError::IllegalArgument(_))
    ));
}

#[test]
fn ordinal_sets_know_their_bounds() {
    assert!(build_ordinal_set(&[], 10).unwrap().is_none());
    let set = build_ordinal_set(&[2, 3, 4], 10).unwrap().unwrap();
    assert_eq!((set.min, set.max, set.contiguous), (2, 4, true));
    let set = build_ordinal_set(&[2, 5], 10).unwrap().unwrap();
    assert!(!set.contiguous);
    assert!(set.ords.get(5) && !set.ords.get(3));
}

#[test]
fn range_iterator_loads_bits() {
    let mut it = DocValuesRangeIterator::for_sorted_numeric_range(
        sample(),
        Some(Skipper(sample(), 40)),
        5,
        9,
    );
    assert_eq!(it.advance(0).unwrap(), 0);
    let mut bits = FixedBitSet::new(40);
    it.into_bit_set(40, &mut bits, 0).unwrap();
    assert_eq!(bits.cardinality(), 13);
    assert!(bits.get(9) && !bits.get(12) && bits.get(34));
}

#[test]
fn values_are_iterated_like_documents() {
    let mut it = DocValuesIterator::new(values(&[(3, &[1]), (7, &[2])]), 2);
    assert_eq!(it.cost(), 2);
    assert_eq!(it.next_doc().unwrap(), 3);
    assert_eq!(it.advance(4).unwrap(), 7);
    assert_eq!(it.doc_id_run_end().unwrap(), 8);
    assert_eq!(it.values().doc_id(), 7);
    assert_eq!(it.next_doc().unwrap(), NO_MORE_DOCS);
}

/// Every document below a bound has a value.
struct Dense {
    max_doc: i32,
    at: i32,
}

impl DocValues for Dense {
    fn view(&self) -> ValuesAt {
        unreachable!()
    }

    fn inv(&self) -> bool {
        unreachable!()
    }

    fn infallible(&self) -> bool {
        unreachable!()
    }

    fn doc_id(&self) -> i32 {
        self.at
    }

    fn next_doc(&mut self) -> Result<i32, LuceneError> {
        self.advance(self.at + 1)
    }

    fn advance(&mut self, target: i32) -> Result<i32, LuceneError> {
        self.at = if target < self.max_doc { target } else { NO_MORE_DOCS };
        Ok(self.at)
    }

    fn value_count(&mut self) -> Result<usize, LuceneError> {
        Ok(1)
    }

    fn value(&mut self, _index: usize) -> Result<i64, LuceneError> {
        Ok(0)
    }

    fn doc_id_run_end(&self) -> Result<i32, LuceneError> {
        Ok(self.max_doc)
    }
}

#[test]
fn runs_of_values_are_reported() {
    let mut it = DocValuesIterator::new(Dense { max_doc: 9, at: -1 }, 9);
    assert_eq!(it.advance(4).unwrap(), 4);
    assert_eq!(it.doc_id_run_end().unwrap(), 9);
}

#[test]
fn runs_of_accepted_documents_are_reported() {
    let mut all = from_live_docs(None, 5).unwrap().iterator().unwrap();
    assert_eq!(all.doc_id_run_end().unwrap(), 5);
    assert_eq!(all.next_doc().unwrap(), 0);
    assert_eq!(all.doc_id_run_end().unwrap(), 5);
    assert_eq!(empty().doc_id_run_end().unwrap(), 0);
    let live = || -> Box<dyn Bits> {
        let mut bits = FixedBitSet::new(5);
        bits.set(1);
        bits.set(2);
        Box::new(bits)
    };
    let mut some = from_live_docs(Some(live()), 5).unwrap().iterator().unwrap();
    assert_eq!(some.next_doc().unwrap(), 1);
    assert_eq!(some.doc_id_run_end().unwrap(), 2);
    let mut given = from_iterator_supplier(|| range(1, 4), None, 5).unwrap();
    let mut plain = given.iterator().unwrap();
    assert_eq!(plain.next_doc().unwrap(), 1);
    assert_eq!(plain.doc_id_run_end().unwrap(), 4);
    assert_eq!(given.cost().unwrap(), 3);
    let mut cached = given.iterator().unwrap();
    assert_eq!(cached.next_doc().unwrap(), 1);
    assert_eq!(cached.doc_id_run_end().unwrap(), 2);
    let mut filtered = from_iterator_supplier(|| range(1, 4), Some(live()), 5).unwrap();
    let mut filtered = filtered.iterator().unwrap();
    assert_eq!(filtered.next_doc().unwrap(), 1);
    assert_eq!(filtered.doc_id_run_end().unwrap(), 2);
}

struct Positions {
    at: Vec<i32>,
    taken: usize,
}

impl PositionsEnum for Positions {
    fn positions(&self) -> Sequence<i32> {
        unreachable!()
    }

    fn taken(&self) -> Integer {
        unreachable!()
    }

    fn offsets(&self) -> (i32, i32) {
        unreachable!()
    }

    fn inv(&self) -> bool {
        unreachable!()
    }

    fn infallible(&self) -> bool {
        unreachable!()
    }

    fn freq(&self) -> Result<i32, LuceneError> {
        Ok(self.at.len() as i32)
    }

    fn next_position(&mut self) -> Result<i32, LuceneError> {
        self.taken += 1;
        Ok(self.at[self.taken - 1])
    }

    fn start_offset(&self) -> i32 {
        self.at[self.taken - 1] * 10
    }

    fn end_offset(&self) -> i32 {
        self.at[self.taken - 1] * 10 + 5
    }
}

fn positions(at: &[i32]) -> Positions {
    Positions { at: at.to_vec(), taken: 0 }
}

#[test]
fn phrases_match_where_the_terms_follow_each_other() {
    let mut matcher = ExactPhraseMatcher::new(
        vec![(positions(&[1, 5, 9, 30]), 0), (positions(&[2, 10, 11]), 1)],
        ScoreMode::COMPLETE,
        8,
    )
    .unwrap();
    assert_eq!(matcher.get_match_cost(), 8);
    assert!(!matcher.use_impacts);
    assert_eq!(matcher.max_freq().unwrap(), 3);
    matcher.reset_positions().unwrap();
    assert!(matcher.next_match().unwrap());
    assert_eq!((matcher.start_position(), matcher.end_position()), (1, 2));
    assert_eq!((matcher.start_offset(), matcher.end_offset()), (10, 25));
    assert!(matcher.next_match().unwrap());
    assert_eq!(matcher.start_position(), 9);
    assert!(!matcher.next_match().unwrap());
}

#[test]
fn phrases_need_a_position_of_every_term() {
    let matches = |lead: &[i32], offset: i32, other: &[i32]| {
        let terms = vec![(positions(lead), offset), (positions(other), 0)];
        let mut matcher = ExactPhraseMatcher::new(terms, ScoreMode::COMPLETE, 8).unwrap();
        matcher.reset_positions().unwrap();
        let mut found = vec![];
        while matcher.next_match().unwrap() {
            found.push((matcher.start_position(), matcher.end_position()));
        }
        found
    };
    assert_eq!(matches(&[0], 1, &[]), vec![]);
    assert_eq!(matches(&[0], 1, &[3]), vec![]);
    assert_eq!(matches(&[0, 4], 1, &[3]), vec![(4, 3)]);
    assert_eq!(matches(&[0, 1, 2, 5], 2, &[0, 3]), vec![(2, 0), (5, 3)]);
}

#[test]
fn phrases_have_two_terms_at_least() {
    match ExactPhraseMatcher::new(vec![(positions(&[1]), 0)], ScoreMode::COMPLETE, 8) {
        Err(LuceneError::IllegalArgument(text)) => {
            assert_eq!(text, "Cannot make a ConjunctionDISI of less than 2 iterators")
        }
        _ => panic!(),
    }
}

#[derive(Clone)]
struct Levels(Vec<(i32, Vec<Impact>)>);

impl Impacts for Levels {
    fn levels(&self) -> Sequence<ImpactLevel> {
        unreachable!()
    }

    fn num_levels(&self) -> i32 {
        self.0.len() as i32
    }

    fn doc_id_up_to(&self, level: i32) -> i32 {
        self.0[level as usize].0
    }

    fn get_impacts(&self, level: i32) -> Vec<Impact> {
        self.0[level as usize].1.clone()
    }
}

struct Costly {
    cost: i64,
    levels: Levels,
}

impl ImpactsEnum for Costly {
    type I = Levels;

    fn reported_cost(&self) -> i64 {
        unreachable!()
    }

    fn shallow(&self) -> Option<i32> {
        unreachable!()
    }

    fn current(&self) -> Self::I {
        unreachable!()
    }

    fn infallible(&self) -> bool {
        unreachable!()
    }

    fn cost(&self) -> i64 {
        self.cost
    }

    fn advance_shallow(&mut self, _target: i32) -> Result<(), LuceneError> {
        Ok(())
    }

    fn get_impacts(&mut self) -> Result<Levels, LuceneError> {
        Ok(self.levels.clone())
    }
}

#[test]
fn impacts_of_a_phrase_are_merged() {
    let a = Costly { cost: 9, levels: Levels(vec![(100, vec![(1, 10), (3, 20)])]) };
    let b = Costly { cost: 4, levels: Levels(vec![(50, vec![(2, 15)])]) };
    let mut source = merge_impacts(vec![a, b]);
    assert_eq!(source.lead_index, 1);
    source.advance_shallow(0).unwrap();
    let merged = source.get_impacts().unwrap();
    assert_eq!((merged.num_levels(), merged.doc_id_up_to(0)), (1, 50));
    assert_eq!(merged.get_impacts(0), vec![(1, 15), (2, 20)]);
    let useless = Costly { cost: 1, levels: Levels(vec![(60, vec![(i32::MAX, 1)])]) };
    let short = Costly { cost: 2, levels: Levels(vec![(10, vec![(7, 7)])]) };
    let mut source = merge_impacts(vec![useless, short]);
    assert_eq!(source.get_impacts().unwrap().get_impacts(0), vec![(i32::MAX, 1)]);
}

struct Bounded {
    docs: Vec<i32>,
    at: i32,
}

impl DocIdSetIterator for Bounded {
    fn view(&self) -> DocIds {
        unreachable!()
    }

    fn inv(&self) -> bool {
        unreachable!()
    }

    fn infallible(&self) -> bool {
        unreachable!()
    }

    fn reported_cost(&self) -> i64 {
        unreachable!()
    }

    fn doc_id(&self) -> i32 {
        self.at
    }

    fn next_doc(&mut self) -> Result<i32, LuceneError> {
        self.advance(self.at + 1)
    }

    fn advance(&mut self, target: i32) -> Result<i32, LuceneError> {
        self.at = *self.docs.iter().find(|d| **d >= target).unwrap_or(&NO_MORE_DOCS);
        Ok(self.at)
    }

    fn cost(&self) -> i64 {
        self.docs.len() as i64
    }
}

/// The greatest score in each block of ten documents.
struct Scores {
    scores: Vec<i32>,
    looked_at: i32,
}

impl ScoreBounds for Scores {
    fn bounds(&self) -> BlockBounds {
        unreachable!()
    }

    fn looked_at(&self) -> Integer {
        unreachable!()
    }

    fn readable(&self) -> bool {
        unreachable!()
    }

    fn advance_shallow(&mut self, target: i32) -> Result<i32, LuceneError> {
        self.looked_at = target;
        let block = (target / 10) as usize;
        Ok(if block + 1 >= self.scores.len() { NO_MORE_DOCS } else { block as i32 * 10 + 9 })
    }

    fn max_score(&mut self) -> Result<i32, LuceneError> {
        let block = ((self.looked_at / 10) as usize).min(self.scores.len() - 1);
        Ok(self.scores[block])
    }

    fn skip_up_to(&mut self, _min_score: i32) -> Result<i32, LuceneError> {
        Ok(-1)
    }
}

#[test]
fn blocks_without_competitive_scores_are_skipped() {
    let docs = Bounded { docs: vec![1, 5, 12, 25, 31], at: -1 };
    let mut it = ImpactsDISI::new(docs, Scores { scores: vec![5, 1, 9, 2], looked_at: 0 });
    assert_eq!(it.cost(), 5);
    it.ensure_competitive().unwrap();
    assert_eq!(it.doc_id(), -1);
    assert_eq!(it.next_doc().unwrap(), 1);
    it.set_min_competitive_score(5);
    assert_eq!(it.next_doc().unwrap(), 5);
    assert_eq!(it.next_doc().unwrap(), 12);
    assert_eq!(it.next_doc().unwrap(), 25);
    it.set_min_competitive_score(9);
    assert_eq!(it.doc_id(), 25);
    it.ensure_competitive().unwrap();
    assert_eq!(it.inner().doc_id(), 25);
    assert_eq!(it.next_doc().unwrap(), 31);
    assert_eq!(it.next_doc().unwrap(), NO_MORE_DOCS);
    assert_eq!(it.get_max_score_cache().scores.len(), 4);
}

#[derive(Clone)]
struct Spans {
    spans: Vec<(i32, i32)>,
    at: usize,
    name: Arc<String>,
}

fn spans(name: &str, list: &[(i32, i32)]) -> Spans {
    Spans { spans: list.to_vec(), at: 0, name: Arc::new(name.to_string()) }
}

impl MatchesIterator for Spans {
    type Query = String;
    type Sub = i32;

    fn view(&self) -> MatchView<Self::Query, Self::Sub> {
        unreachable!()
    }

    fn inv(&self) -> bool {
        unreachable!()
    }

    fn infallible(&self) -> bool {
        unreachable!()
    }

    fn next(&mut self) -> Result<bool, LuceneError> {
        self.at += 1;
        Ok(self.at <= self.spans.len())
    }

    fn start_position(&self) -> i32 {
        self.spans[self.at - 1].0
    }

    fn end_position(&self) -> i32 {
        self.spans[self.at - 1].1
    }

    fn start_offset(&self) -> Result<i32, LuceneError> {
        Ok(self.start_position() * 10)
    }

    fn end_offset(&self) -> Result<i32, LuceneError> {
        Ok(self.end_position() * 10 + 5)
    }

    fn get_sub_matches(&self) -> Result<Option<i32>, LuceneError> {
        Ok(None)
    }

    fn get_query(&self) -> Arc<String> {
        Arc::clone(&self.name)
    }
}

fn drain<M: MatchesIterator>(mut it: M) -> Vec<(i32, i32)> {
    let mut out = vec![];
    while it.next().unwrap() {
        out.push((it.start_position(), it.end_position()));
    }
    out
}

#[test]
fn matches_are_merged_in_order() {
    let mut it =
        DisjunctionMatchesIterator::new(vec![spans("a", &[(1, 1), (7, 8)]), spans("b", &[(3, 4)])])
            .unwrap();
    assert!(it.next().unwrap());
    assert_eq!(*it.get_query(), "a");
    assert!(it.next().unwrap());
    assert_eq!(*it.get_query(), "b");
    assert_eq!((it.start_offset().unwrap(), it.end_offset().unwrap()), (30, 45));
    assert!(it.next().unwrap());
    assert_eq!(it.start_position(), 7);
    assert!(it.get_sub_matches().unwrap().is_none());
    assert!(!it.next().unwrap());
    assert!(from_sub_iterators::<Spans>(vec![]).unwrap().is_none());
    let one = from_sub_iterators(vec![spans("a", &[(2, 3)])]).unwrap().unwrap();
    assert_eq!(drain(one), vec![(2, 3)]);
    let two = from_sub_iterators(vec![spans("a", &[(5, 6)]), spans("b", &[(2, 2)])]).unwrap().unwrap();
    assert_eq!(drain(two), vec![(2, 2), (5, 6)]);
    let filtered = FilterMatchesIterator::new(spans("a", &[(2, 3), (4, 4)]));
    assert_eq!(drain(filtered), vec![(2, 3), (4, 4)]);
    assert_eq!(FilterMatchesIterator::new(spans("x", &[])).into_inner().at, 0);
}

struct Terms(Vec<&'static str>);

impl BytesRefIterator for Terms {
    fn remaining(&self) -> Sequence<Sequence<u8>> {
        unreachable!()
    }

    fn inv(&self) -> bool {
        unreachable!()
    }

    fn infallible(&self) -> bool {
        unreachable!()
    }

    fn next(&mut self) -> Result<Option<Vec<u8>>, LuceneError> {
        if self.0.is_empty() {
            return Ok(None);
        }
        Ok(Some(self.0.remove(0).as_bytes().to_vec()))
    }
}

struct Postings;

impl TermPostings for Postings {
    type M = Spans;

    fn matches_of(&self, _term: Sequence<u8>) -> Option<MatchView<<Self::M as MatchesIterator>::Query, <Self::M as MatchesIterator>::Sub>> {
        unreachable!()
    }

    fn infallible(&self) -> bool {
        unreachable!()
    }

    fn seek(&mut self, term: &Vec<u8>) -> Result<Option<Spans>, LuceneError> {
        Ok(match term.as_slice() {
            b"a" => Some(spans("a", &[(4, 4)])),
            b"b" => Some(spans("b", &[(1, 1), (9, 9)])),
            _ => None,
        })
    }
}

#[test]
fn matches_of_many_terms_are_merged() {
    let it = from_terms_enum(Terms(vec!["x", "a", "y", "b"]), Postings).unwrap().unwrap();
    assert_eq!(drain(it), vec![(1, 1), (4, 4), (9, 9)]);
    assert!(from_terms_enum(TermsEnumBytesRefIterator::new(Terms(vec!["x"])), Postings)
        .unwrap()
        .is_none());
    let term = |field: &str, text: &str| Term {
        field: field.to_string(),
        bytes: text.as_bytes().to_vec(),
    };
    let it = from_terms("f", &[term("f", "b")], Postings).unwrap().unwrap();
    assert_eq!(drain(it), vec![(1, 1), (9, 9)]);
    match from_terms("f", &[term("f", "b"), term("g", "a")], Postings) {
        Err(LuceneError::IllegalArgument(m)) => assert_eq!(
            m,
            "Tried to generate iterator from terms in multiple fields: expected [f] but got [g]"
        ),
        _ => panic!(),
    }
}
