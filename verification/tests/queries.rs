use std::sync::Arc;

use rucene::error::LuceneError;
use rucene::search::bulk_scorer::{BulkScorer, ScoreCollector};
use rucene::search::collector::CollectionError;
use rucene::search::constant_score_weight::{
    matches_doc, ConstantScoreWeight, ConstantScoreWeightImpl,
};
use rucene::search::disjunction_max_query::{
    split_scores, ClauseExplanations, DisjunctionMaxQuery, DisjunctionMaxWeight,
    RewrittenDisjunction, TieBreaker, FULL_TIE_BREAKER, NO_TIE_BREAKER,
};
use rucene::search::doc_id_set_iterator::NO_MORE_DOCS;
use rucene::search::doc_values_rewrite_method::{DocValuesRewriteMethod, MultiTermQuery};
use rucene::search::explanation::Explanation;
use rucene::search::field_exists_query::FieldExistsQuery;
use rucene::search::index_or_doc_values_query::{
    IndexOrDocValuesQuery, IndexOrDocValuesWeight, RewrittenChoice,
};
use rucene::search::index_searcher::{
    LeafReaderContext, NumClausesCheckVisitor, Query, SearchableQuery, Weight,
};
use rucene::search::index_sort_sorted_numeric_doc_values_range_query::{
    IndexSortSortedNumericDocValuesRangeQuery, IteratorAndCount, RangeMatches,
    SortField as IndexSortField, SortFieldType, SortedLeaf, ValueLookup,
};
use rucene::search::indri_and_query::IndriAndQuery;
use rucene::search::indri_and_scorer::{new_indri_and_scorer, IndriAndScoring};
use rucene::search::indri_and_weight::{IndriAndWeight, IndriExplanations, IndriScorers};
use rucene::search::indri_query::{BooleanClause, IndriQuery, Occur};
use rucene::search::indri_scorer::{IndriClause, IndriScorer};
use rucene::search::query::{equal_queries, QueryKind, QueryNode};
use rucene::search::score_mode::ScoreMode;
use rucene::search::scorer::{Matching, Scorer};
use rucene::search::scorer_supplier::ScorerSupplier;
use rucene::search::weight::ClauseWeight;
use rucene::util::bits::Bits;
use rucene::util::fixed_bit_set::FixedBitSet;
use rucene::util::models::{Integer, Natural, Sequence, Table};

struct ListScorer {
    docs: Vec<i32>,
    at: i32,
    confirm_even: bool,
    boost: Option<i32>,
}

fn list(docs: &[i32]) -> ListScorer {
    ListScorer { docs: docs.to_vec(), at: -1, confirm_even: false, boost: None }
}

impl Scorer for ListScorer {
    fn view(&self) -> Matching {
        unreachable!()
    }

    fn inv(&self) -> bool {
        unreachable!()
    }

    fn infallible(&self) -> bool {
        unreachable!()
    }

    fn confirmed(&self) -> Sequence<Integer> {
        unreachable!()
    }

    fn doc_id(&self) -> i32 {
        self.at
    }

    fn next_approximation(&mut self) -> Result<i32, LuceneError> {
        self.advance_approximation(self.at + 1)
    }

    fn advance_approximation(&mut self, target: i32) -> Result<i32, LuceneError> {
        self.at = *self.docs.iter().find(|d| **d >= target).unwrap_or(&NO_MORE_DOCS);
        Ok(self.at)
    }

    fn load_approximation(
        &mut self,
        up_to: i32,
        bit_set: &mut FixedBitSet,
        offset: i32,
    ) -> Result<(), LuceneError> {
        if self.at == -1 {
            self.next_approximation()?;
        }
        while self.at < up_to {
            bit_set.set((self.at - offset) as usize);
            self.next_approximation()?;
        }
        Ok(())
    }

    fn cost(&self) -> i64 {
        self.docs.len() as i64
    }

    fn has_two_phase(&self) -> bool {
        self.confirm_even
    }

    fn match_cost(&self) -> i32 {
        0
    }

    fn matches(&mut self) -> Result<bool, LuceneError> {
        Ok(!self.confirm_even || self.at % 2 == 0)
    }

    fn hits_run_end(&self) -> Result<i32, LuceneError> {
        let mut end = self.at;
        if !self.confirm_even {
            while self.docs.contains(&end) {
                end += 1;
            }
        }
        Ok(end)
    }
}

impl IndriClause for ListScorer {
    fn indri_boost(&self) -> Option<i32> {
        unreachable!()
    }

    fn as_indri_scorer(&self) -> Option<i32> {
        self.boost
    }
}

struct NoBulk;

impl BulkScorer for NoBulk {
    fn remaining(&self) -> Table<Integer, i32> {
        unreachable!()
    }

    fn inv(&self) -> bool {
        unreachable!()
    }

    fn infallible(&self) -> bool {
        unreachable!()
    }

    fn reported_cost(&self) -> i64 {
        unreachable!()
    }

    fn last_next(&self) -> Integer {
        unreachable!()
    }

    fn cost(&self) -> i64 {
        0
    }

    fn score<C: ScoreCollector, B: Bits>(
        &mut self,
        _collector: &mut C,
        _accept_docs: Option<&B>,
        _min: i32,
        max: i32,
    ) -> Result<i32, CollectionError> {
        Ok(max)
    }
}

#[derive(Clone)]
struct ListSupplier {
    docs: Vec<i32>,
    top_level: bool,
}

impl ScorerSupplier for ListSupplier {
    type S = ListScorer;
    type B = NoBulk;

    fn reported_cost(&self) -> i64 {
        unreachable!()
    }

    fn top_level(&self) -> bool {
        unreachable!()
    }

    fn supplied(&self, _lead_cost: i64) -> Self::S {
        unreachable!()
    }

    fn bulk_supplied(&self) -> Self::B {
        unreachable!()
    }

    fn infallible(&self) -> bool {
        unreachable!()
    }

    fn cost(&self) -> i64 {
        self.docs.len() as i64
    }

    fn get(&mut self, _lead_cost: i64) -> Result<ListScorer, LuceneError> {
        Ok(list(&self.docs))
    }

    fn bulk_scorer(&mut self) -> Result<NoBulk, LuceneError> {
        Ok(NoBulk)
    }

    fn set_top_level_scoring_clause(&mut self) -> Result<(), LuceneError> {
        self.top_level = true;
        Ok(())
    }
}

struct ListWeight {
    docs: Vec<i32>,
    cacheable: bool,
}

impl Weight for ListWeight {
    type P = ListSupplier;

    fn explained(&self, _ctx: LeafReaderContext, _doc: i32) -> Result<Explanation, LuceneError> {
        unreachable!()
    }

    fn supplier(&self, _ctx: LeafReaderContext) -> Result<Option<Self::P>, LuceneError> {
        unreachable!()
    }

    fn explain(&self, _ctx: &LeafReaderContext, doc: i32) -> Result<Explanation, LuceneError> {
        Ok(if self.docs.contains(&doc) {
            Explanation::matched(doc * 10, format!("found {}", doc), vec![])
        } else {
            Explanation::no_match("missing".to_string(), vec![])
        })
    }

    fn scorer_supplier(&self, _ctx: &LeafReaderContext) -> Result<Option<ListSupplier>, LuceneError> {
        if self.docs.is_empty() {
            return Ok(None);
        }
        Ok(Some(ListSupplier { docs: self.docs.clone(), top_level: false }))
    }
}

impl ClauseWeight for ListWeight {
    type M = i32;

    fn cacheable(&self, _ctx: LeafReaderContext) -> bool {
        unreachable!()
    }

    fn matched(&self, _ctx: LeafReaderContext, _doc: i32) -> Result<Option<Self::M>, LuceneError> {
        unreachable!()
    }

    fn counted(&self, _ctx: LeafReaderContext) -> Result<i32, LuceneError> {
        unreachable!()
    }

    fn is_cacheable(&self, _ctx: &LeafReaderContext) -> bool {
        self.cacheable
    }

    fn matches(&self, _ctx: &LeafReaderContext, doc: i32) -> Result<Option<i32>, LuceneError> {
        Ok(self.docs.iter().find(|d| **d == doc).copied())
    }

    fn count(&self, _ctx: &LeafReaderContext) -> Result<i32, LuceneError> {
        Ok(self.docs.len() as i32)
    }
}

#[derive(Debug, PartialEq)]
struct Node {
    text: String,
    kind: QueryKind,
    next: Option<Box<Node>>,
    docs: Vec<i32>,
}

fn node(text: &str) -> Node {
    Node { text: text.to_string(), kind: QueryKind::Other, next: None, docs: vec![] }
}

fn arc(text: &str) -> Arc<Node> {
    Arc::new(node(text))
}

fn copy(n: &Node) -> Node {
    Node {
        text: n.text.clone(),
        kind: n.kind,
        next: n.next.as_ref().map(|x| Box::new(copy(x))),
        docs: n.docs.clone(),
    }
}

impl Query for Node {
    fn rank(&self) -> Natural {
        unreachable!()
    }

    fn next_form(&self) -> Option<Self> {
        unreachable!()
    }

    fn num_clauses(&self) -> Natural {
        unreachable!()
    }

    fn infallible(&self) -> bool {
        unreachable!()
    }

    fn rewriting_gets_closer(&self) {
        unreachable!()
    }

    fn rewrite(&self) -> Result<Option<Node>, LuceneError> {
        Ok(self.next.as_ref().map(|n| copy(n)))
    }

    fn visit(&self, visitor: &mut NumClausesCheckVisitor) {
        visitor.count_one();
    }
}

impl QueryNode for Node {
    fn node_kind(&self) -> QueryKind {
        unreachable!()
    }

    fn rendered(&self, _field: Sequence<char>) -> Sequence<char> {
        unreachable!()
    }

    fn equals(&self, _other: &Self) -> bool {
        unreachable!()
    }

    fn kind(&self) -> QueryKind {
        self.kind
    }

    fn to_query_string(&self, field: &str) -> String {
        if field.is_empty() {
            self.text.clone()
        } else {
            format!("{}@{}", self.text, field)
        }
    }

    fn query_eq(&self, other: &Self) -> bool {
        self.text == other.text
    }
}

impl MultiTermQuery for Node {
    fn field_name(&self) -> Sequence<char> {
        unreachable!()
    }

    fn get_field(&self) -> &str {
        &self.text
    }
}

#[test]
fn multi_term_queries_are_answered_by_values() {
    let wrapped = DocValuesRewriteMethod.rewrite(arc("tags"));
    assert_eq!(wrapped.get_field(), "tags");
    assert_eq!(wrapped.to_query_string("f"), "tags@f");
    let other = DocValuesRewriteMethod.rewrite(arc("names"));
    assert!(wrapped.query_eq(&wrapped));
    assert!(!wrapped.query_eq(&other));
    assert_eq!(wrapped.query_hash(3, 4), 97);
    assert_eq!(DocValuesRewriteMethod.method_hash(9), 650);
    assert!(wrapped.scorer_supplier(vec![1], 0, 5).is_none());
    let supplier = wrapped.scorer_supplier(vec![1, 2], 9, 5).unwrap();
    assert_eq!((supplier.ordinals, supplier.value_count, supplier.cost), (Some(vec![1, 2]), 9, 5));
}

impl SearchableQuery for Node {
    type W = ListWeight;

    fn weight(&self, _mode: ScoreMode, _boost: i32) -> Self::W {
        unreachable!()
    }

    fn preparable(&self) -> bool {
        unreachable!()
    }

    fn create_weight(&self, _mode: ScoreMode, _boost: i32) -> Result<Arc<ListWeight>, LuceneError> {
        Ok(Arc::new(ListWeight { docs: self.docs.clone(), cacheable: true }))
    }
}

fn context() -> LeafReaderContext {
    LeafReaderContext { id: 0, doc_base: 0, max_doc: 100, live_docs: None }
}

fn weight(docs: &[i32]) -> Arc<ListWeight> {
    Arc::new(ListWeight { docs: docs.to_vec(), cacheable: true })
}

struct Sorted(Vec<i64>);

impl ValueLookup for Sorted {
    fn values(&self) -> Sequence<i64> {
        unreachable!()
    }

    fn infallible(&self) -> bool {
        unreachable!()
    }

    fn value(&mut self, doc: i32) -> Result<i64, LuceneError> {
        Ok(self.0[doc as usize])
    }
}

#[test]
fn range_queries_fall_back_where_the_order_says_nothing() {
    let fallback = Node { docs: vec![4, 6, 7], ..node("f") };
    let query = Arc::new(IndexSortSortedNumericDocValuesRangeQuery::new(
        "f".to_string(),
        2,
        3,
        fallback,
    ));
    let weight =
        IndexSortSortedNumericDocValuesRangeQuery::create_weight(query, ScoreMode::COMPLETE, 1)
            .unwrap();
    let leaf = |sorted: bool| SortedLeaf {
        max_doc: 4,
        has_deletions: false,
        single_valued_numeric: true,
        sort_field: if sorted {
            Some(IndexSortField {
                field: Some("f".to_string()),
                reverse: false,
                field_type: SortFieldType::Long,
                missing: None,
            })
        } else {
            None
        },
        points: None,
    };
    let mut values = Sorted(vec![1, 2, 2, 5]);
    assert_eq!(weight.count(&context(), &leaf(true), &mut values).unwrap(), 2);
    assert_eq!(weight.count(&context(), &leaf(false), &mut values).unwrap(), 3);
    assert!(weight.is_cacheable(&context()));
    assert!(matches!(
        weight.scorer_supplier(&context(), &leaf(true), &mut values).unwrap(),
        RangeMatches::Known(IteratorAndCount::DenseRange(1, 3))
    ));
    match weight.scorer_supplier(&context(), &leaf(false), &mut values).unwrap() {
        RangeMatches::Fallback(Some(supplier)) => assert_eq!(supplier.cost(), 3),
        _ => panic!(),
    }
}

#[test]
fn queries_are_compared_as_multisets() {
    assert!(equal_queries(&vec![arc("a"), arc("b"), arc("a")], &vec![arc("b"), arc("a"), arc("a")]));
    assert!(!equal_queries(&vec![arc("a"), arc("b"), arc("a")], &vec![arc("b"), arc("b"), arc("a")]));
    assert!(!equal_queries(&vec![arc("a")], &vec![]));
}

#[test]
fn tie_breaker_must_be_a_fraction() {
    assert_eq!(FULL_TIE_BREAKER, 1.0f32.to_bits() as i32);
    for bad in [NO_TIE_BREAKER - 1, FULL_TIE_BREAKER + 1] {
        match DisjunctionMaxQuery::<Node>::new(vec![], TieBreaker::Factor(bad)) {
            Err(LuceneError::IllegalArgument(m)) => {
                assert_eq!(m, "tieBreakerMultiplier must be in [0, 1]")
            }
            _ => panic!(),
        }
    }
    let q = DisjunctionMaxQuery::new(vec![arc("a")], TieBreaker::NotANumber).unwrap();
    assert_eq!(q.get_tie_breaker_multiplier(), TieBreaker::NotANumber);
    assert_eq!(q.get_disjuncts().len(), 1);
}

/// Whether at most `n` clauses are shown.
fn shows_at_most(n: i32, visit: impl Fn(&mut NumClausesCheckVisitor)) -> bool {
    let mut visitor = NumClausesCheckVisitor::new(n);
    visit(&mut visitor);
    visitor.check().is_ok()
}

#[test]
fn clauses_of_parts_are_shown() {
    let three = disjunction(vec![arc("a"), arc("b"), arc("c")], 0);
    assert!(shows_at_most(3, |v| three.visit(v)));
    assert!(!shows_at_most(2, |v| three.visit(v)));
    let two = IndexOrDocValuesQuery::new(arc("index"), arc("values"));
    assert!(shows_at_most(2, |v| two.visit(v)));
    assert!(!shows_at_most(1, |v| two.visit(v)));
    let wrapped = DocValuesRewriteMethod.rewrite(arc("tags"));
    assert!(shows_at_most(1, |v| {
        wrapped.visit(v);
        v.count_one();
    }));
    let range = IndexSortSortedNumericDocValuesRangeQuery::new("f".to_string(), 1, 2, node("f"));
    assert!(shows_at_most(2, |v| range.visit(v)));
    assert!(!shows_at_most(1, |v| range.visit(v)));
    let leaf = FieldExistsQuery::new("f");
    assert!(shows_at_most(1, |v| leaf.visit(v)));
    assert!(!shows_at_most(1, |v| {
        leaf.visit(v);
        leaf.visit(v);
    }));
    assert_eq!(three.query_hash(2, 3, 4), (2 * 31 + 3) * 31 + 4);
}

fn disjunction(clauses: Vec<Arc<Node>>, tie: i32) -> DisjunctionMaxQuery<Node> {
    DisjunctionMaxQuery::new(clauses, TieBreaker::Factor(tie)).unwrap()
}

#[test]
fn small_disjunctions_are_rewritten() {
    match disjunction(vec![], 0).rewrite().unwrap() {
        Some(RewrittenDisjunction::MatchNoDocs(m)) => assert_eq!(m, "empty DisjunctionMaxQuery"),
        _ => panic!(),
    }
    match disjunction(vec![arc("a")], 0).rewrite().unwrap() {
        Some(RewrittenDisjunction::Query(q)) => assert_eq!(q.text, "a"),
        _ => panic!(),
    }
    match disjunction(vec![arc("a"), arc("b")], FULL_TIE_BREAKER).rewrite().unwrap() {
        Some(RewrittenDisjunction::Should(list)) => assert_eq!(list.len(), 2),
        _ => panic!(),
    }
    assert!(disjunction(vec![arc("a"), arc("b")], 0).rewrite().unwrap().is_none());
}

#[test]
fn clauses_that_match_nothing_are_dropped() {
    let nothing = Arc::new(Node { kind: QueryKind::MatchNoDocs, ..node("none") });
    let changing = Arc::new(Node { next: Some(Box::new(node("simple"))), ..node("complex") });
    match disjunction(vec![arc("a"), nothing.clone()], 0).rewrite().unwrap() {
        Some(RewrittenDisjunction::Query(q)) => assert_eq!(q.text, "a"),
        _ => panic!(),
    }
    match disjunction(vec![nothing.clone(), nothing.clone()], 0).rewrite().unwrap() {
        Some(RewrittenDisjunction::MatchNoDocs(_)) => {}
        _ => panic!(),
    }
    match disjunction(vec![arc("a"), changing, nothing], 7).rewrite().unwrap() {
        Some(RewrittenDisjunction::DisjunctionMax(q)) => {
            assert_eq!(q.disjuncts[1].text, "simple");
            assert_eq!(q.disjuncts.len(), 2);
            assert_eq!(q.tie_breaker_multiplier, TieBreaker::Factor(7));
        }
        _ => panic!(),
    }
}

#[test]
fn disjunctions_are_rendered_and_compared() {
    let boolean = Arc::new(Node { kind: QueryKind::Boolean, ..node("b c") });
    let q = disjunction(vec![arc("a"), boolean.clone()], 0);
    assert_eq!(q.to_query_string("", "0.0"), "(a | (b c))");
    let r = disjunction(vec![boolean, arc("a")], 0);
    assert!(q.query_eq(&r));
    let t = disjunction(vec![arc("a"), arc("b")], 5);
    assert_eq!(t.to_query_string("f", "0.5"), "(a@f | b@f)~0.5");
    assert!(!q.query_eq(&t));
}

#[test]
fn disjunction_weight_explains_its_clauses() {
    let w = DisjunctionMaxWeight {
        weights: vec![weight(&[1, 2]), weight(&[2, 3]), weight(&[])],
        tie_breaker_multiplier: TieBreaker::Factor(0),
        score_mode: ScoreMode::COMPLETE,
    };
    let ctx = context();
    assert!(w.is_cacheable(&ctx));
    assert_eq!(w.weights().len(), 3);
    assert_eq!(w.matches(&ctx, 2).unwrap(), vec![2, 2]);
    match w.explain_clauses(&ctx, 2).unwrap() {
        ClauseExplanations::Matched(list) => assert_eq!(list.len(), 2),
        _ => panic!(),
    }
    match w.explain_clauses(&ctx, 9).unwrap() {
        ClauseExplanations::NotMatched(e) => {
            assert!(!e.is_match);
            assert_eq!(e.description, "No matching clause");
        }
        _ => panic!(),
    }
}

#[test]
fn the_greatest_score_is_parted_from_the_others() {
    let scores: Vec<Explanation> = [4, 9, 9, -3]
        .iter()
        .map(|score| Explanation::matched(*score, String::new(), vec![]))
        .collect();
    let split = split_scores(&scores);
    assert_eq!(split.max, 9);
    assert_eq!(split.others, vec![0, 4, 9, -3]);
    assert_eq!(split_scores(&[]).max, 0);
}

#[test]
fn matching_documents_are_confirmed() {
    assert!(!matches_doc::<ListScorer>(None, 3).unwrap());
    assert!(matches_doc(Some(list(&[1, 3])), 3).unwrap());
    assert!(!matches_doc(Some(list(&[1, 3])), 2).unwrap());
    let confirming = |docs: &[i32]| ListScorer { confirm_even: true, ..list(docs) };
    assert!(matches_doc(Some(confirming(&[2, 3])), 2).unwrap());
    assert!(!matches_doc(Some(confirming(&[2, 3])), 3).unwrap());
}

struct Fixed {
    docs: Option<Vec<i32>>,
}

impl ConstantScoreWeightImpl for Fixed {
    type P = ListSupplier;

    fn supplier(&self, _context: LeafReaderContext) -> Result<Option<Self::P>, LuceneError> {
        unreachable!()
    }

    fn cacheable(&self, _context: LeafReaderContext) -> bool {
        unreachable!()
    }

    fn scorer_supplier(
        &self,
        _context: &LeafReaderContext,
    ) -> Result<Option<ListSupplier>, LuceneError> {
        Ok(self.docs.as_ref().map(|docs| ListSupplier { docs: docs.clone(), top_level: false }))
    }

    fn is_cacheable(&self, _context: &LeafReaderContext) -> bool {
        true
    }
}

/// Provides other matches for a lead cost of 1.
struct ByLeadCost;

impl ScorerSupplier for ByLeadCost {
    type S = ListScorer;
    type B = NoBulk;

    fn reported_cost(&self) -> i64 {
        unreachable!()
    }

    fn top_level(&self) -> bool {
        unreachable!()
    }

    fn supplied(&self, _lead_cost: i64) -> Self::S {
        unreachable!()
    }

    fn bulk_supplied(&self) -> Self::B {
        unreachable!()
    }

    fn infallible(&self) -> bool {
        unreachable!()
    }

    fn cost(&self) -> i64 {
        1
    }

    fn get(&mut self, lead_cost: i64) -> Result<ListScorer, LuceneError> {
        Ok(list(if lead_cost == 1 { &[4] } else { &[5] }))
    }

    fn bulk_scorer(&mut self) -> Result<NoBulk, LuceneError> {
        Ok(NoBulk)
    }

    fn set_top_level_scoring_clause(&mut self) -> Result<(), LuceneError> {
        Ok(())
    }
}

impl ConstantScoreWeightImpl for ByLeadCost {
    type P = ByLeadCost;

    fn supplier(&self, _context: LeafReaderContext) -> Result<Option<Self::P>, LuceneError> {
        unreachable!()
    }

    fn cacheable(&self, _context: LeafReaderContext) -> bool {
        unreachable!()
    }

    fn scorer_supplier(
        &self,
        context: &LeafReaderContext,
    ) -> Result<Option<ByLeadCost>, LuceneError> {
        if context.max_doc == 0 {
            return Err(LuceneError::IllegalState("no documents".to_string()));
        }
        Ok(Some(ByLeadCost))
    }

    fn is_cacheable(&self, _context: &LeafReaderContext) -> bool {
        false
    }

    fn count(&self, context: &LeafReaderContext) -> Result<i32, LuceneError> {
        Ok(context.max_doc)
    }
}

#[test]
fn single_documents_are_matched_with_the_least_lead_cost() {
    let mut ctx = context();
    ctx.max_doc = 9;
    let w = ConstantScoreWeight::new("q".to_string(), 7, None, ByLeadCost);
    assert!(w.matches(&ctx, 4).unwrap() && !w.matches(&ctx, 5).unwrap());
    assert!(w.explain(&ctx, 5).unwrap().is_match && !w.explain(&ctx, 4).unwrap().is_match);
    assert_eq!((w.count(&ctx).unwrap(), w.is_cacheable(&ctx)), (9, false));
    assert_eq!(w.scorer_supplier(&ctx).unwrap().unwrap().cost(), 1);
    ctx.max_doc = 0;
    assert!(w.matches(&ctx, 4).is_err() && w.explain(&ctx, 4).is_err());
}

#[test]
fn constant_scores_are_explained() {
    let ctx = context();
    let w = ConstantScoreWeight::new("title:x".to_string(), 7, None, Fixed { docs: Some(vec![4]) });
    assert_eq!(w.score(), 7);
    assert!(w.is_cacheable(&ctx));
    assert_eq!(w.count(&ctx).unwrap(), -1);
    assert!(w.inner().docs.is_some());
    assert!(w.matches(&ctx, 4).unwrap());
    let e = w.explain(&ctx, 4).unwrap();
    assert_eq!((e.is_match, e.value, e.description.as_str()), (true, 7, "title:x"));
    let e = w.explain(&ctx, 5).unwrap();
    assert_eq!((e.is_match, e.value), (false, 0));
    assert_eq!(e.description, "title:x doesn't match id 5");
    let w = ConstantScoreWeight::new(
        "q".to_string(),
        9,
        Some("2.5".to_string()),
        Fixed { docs: Some(vec![4]) },
    );
    assert_eq!(w.explain(&ctx, 4).unwrap().description, "q^2.5");
    let w = ConstantScoreWeight::new("q".to_string(), 9, None, Fixed { docs: None });
    assert!(!w.matches(&ctx, 4).unwrap());
}

fn clause(text: &str, occur: Occur) -> BooleanClause<Node> {
    BooleanClause { query: arc(text), occur }
}

#[test]
fn indri_queries_are_rendered_with_marks() {
    let boolean = Arc::new(Node { kind: QueryKind::Boolean, ..node("x y") });
    let q = IndriAndQuery::new(vec![
        clause("a", Occur::MUST),
        clause("b", Occur::SHOULD),
        BooleanClause { query: boolean, occur: Occur::MUST_NOT },
        clause("c", Occur::FILTER),
    ]);
    assert_eq!(q.to_query_string(""), "+a b -(x y) #c");
    assert_eq!(q.get_clauses().len(), 4);
    assert_eq!(q.iter().filter(|c| c.is_required()).count(), 2);
    assert_eq!(q.weight_score_mode(ScoreMode::COMPLETE), ScoreMode::TOP_SCORES);
    assert!(q.query_eq(&q));
    let other = IndriAndQuery::new(vec![clause("a", Occur::SHOULD)]);
    assert!(!q.query_eq(&other));
    assert!(!other.query_eq(&IndriAndQuery::new(vec![clause("a", Occur::MUST)])));
    assert_eq!(other.base.base_hash(0), 1);
    assert_eq!(other.base.base_hash(8), 8);
    let mut visitor = NumClausesCheckVisitor::new(1);
    q.visit(&mut visitor);
    assert!(visitor.check().is_ok());
    q.visit(&mut visitor);
    assert!(visitor.check().is_err());
    assert_eq!(Occur::SHOULD.as_str(), "");
}

fn indri_weight(weights: Vec<Arc<ListWeight>>, occurs: &[Occur]) -> IndriAndWeight<Node, ListWeight> {
    IndriAndWeight {
        query: IndriQuery::new(occurs.iter().map(|o| clause("q", *o)).collect()),
        weights,
        score_mode: ScoreMode::COMPLETE,
        boost: 3,
    }
}

#[test]
fn indri_weight_combines_the_clauses_that_match() {
    let ctx = context();
    let both = [Occur::SHOULD, Occur::SHOULD];
    assert!(matches!(
        indri_weight(vec![weight(&[]), weight(&[])], &both).get_scorer(&ctx).unwrap(),
        IndriScorers::Nothing
    ));
    match indri_weight(vec![weight(&[]), weight(&[4])], &both).get_scorer(&ctx).unwrap() {
        IndriScorers::One(mut s) => assert_eq!(s.next_approximation().unwrap(), 4),
        _ => panic!(),
    }
    match indri_weight(vec![weight(&[1, 5]), weight(&[4])], &both).get_scorer(&ctx).unwrap() {
        IndriScorers::Many(mut s) => {
            assert_eq!(s.get_boost(), 3);
            assert_eq!(s.next_approximation().unwrap(), 1);
            assert_eq!(s.next_approximation().unwrap(), 4);
            assert_eq!(s.advance_approximation(5).unwrap(), 5);
            assert_eq!(s.next_approximation().unwrap(), NO_MORE_DOCS);
        }
        _ => panic!(),
    }
}

#[test]
fn indri_weight_explains_required_clauses() {
    let ctx = context();
    let w = indri_weight(vec![weight(&[1]), weight(&[2])], &[Occur::SHOULD, Occur::MUST]);
    assert!(w.is_cacheable(&ctx));
    match w.explain_clauses(&ctx, 2).unwrap() {
        IndriExplanations::Matched(subs) => {
            assert_eq!(subs.len(), 1);
            let e = w.explain_score(Some(5), subs);
            assert_eq!((e.is_match, e.value, e.description.as_str()), (true, 5, "sum of:"));
        }
        _ => panic!(),
    }
    match w.explain_clauses(&ctx, 1).unwrap() {
        IndriExplanations::NotMatched(e) => {
            assert_eq!(
                e.description,
                "Failure to meet condition(s) of required/prohibited clause(s)"
            );
            assert_eq!(e.details.len(), 2);
            assert_eq!(e.details[1].description, "no match on required clause (q)");
        }
        _ => panic!(),
    }
    assert!(!w.explain_score(None, vec![]).is_match);
}

#[test]
fn indri_score_has_a_part_of_each_scored_clause() {
    let boosted = |docs: &[i32], boost| ListScorer { boost, ..list(docs) };
    let mut scorer =
        new_indri_and_scorer(vec![boosted(&[1, 3], Some(8)), boosted(&[3], None), boosted(&[2, 3], Some(9))], 4);
    scorer.advance_approximation(2).unwrap();
    let parts = IndriAndScoring.score_doc(scorer.get_sub_matches(), 2);
    assert_eq!(parts.len(), 2);
    assert_eq!((parts[0].clause, parts[0].on_document, parts[0].boost), (0, false, 8));
    assert_eq!((parts[1].clause, parts[1].on_document, parts[1].boost), (2, true, 9));

    let inner = |docs: &[i32], boost| new_indri_and_scorer(vec![boosted(docs, None)], boost);
    let mut scorer = new_indri_and_scorer(vec![inner(&[1, 3], 5), inner(&[2], 6)], 4);
    scorer.advance_approximation(2).unwrap();
    let parts = IndriAndScoring.score_doc(scorer.get_sub_matches(), 2);
    assert_eq!(parts.iter().map(|p| (p.on_document, p.boost)).collect::<Vec<_>>(), vec![(false, 5), (true, 6)]);
    assert_eq!(scorer.as_indri_scorer(), Some(4));
}

#[test]
fn cheap_queries_decide_how_to_search() {
    let q = IndexOrDocValuesQuery::new(arc("index"), arc("values"));
    assert_eq!(q.get_index_query().text, "index");
    assert_eq!(q.get_random_access_query().text, "values");
    assert_eq!(q.to_query_string(""), "IndexOrDocValuesQuery(indexQuery=index, dvQuery=values)");
    assert!(q.query_eq(&q));
    assert!(!q.query_eq(&IndexOrDocValuesQuery::new(arc("index"), arc("other"))));
    assert!(q.rewrite().unwrap().is_none());
    let all = Arc::new(Node { kind: QueryKind::MatchAllDocs, ..node("*") });
    match IndexOrDocValuesQuery::new(all, arc("v")).rewrite().unwrap() {
        Some(RewrittenChoice::MatchAllDocs) => {}
        _ => panic!(),
    }
}

#[test]
fn either_query_can_answer() {
    let ctx = context();
    let w = IndexOrDocValuesWeight { index_weight: weight(&[1, 2, 3]), dv_weight: weight(&[1, 2, 3]) };
    assert!(w.is_cacheable(&ctx));
    assert_eq!(w.count(&ctx).unwrap(), 3);
    assert_eq!(w.matches(&ctx, 2).unwrap(), Some(2));
    assert!(w.explain(&ctx, 3).unwrap().is_match);
    let mut supplier = w.scorer_supplier(&ctx).unwrap().unwrap();
    assert_eq!(supplier.cost(), 3);
    assert!(supplier.get(100).is_ok());
    assert!(supplier.get(0).is_ok());
    assert!(supplier.bulk_scorer().is_ok());
    let none = IndexOrDocValuesWeight { index_weight: weight(&[]), dv_weight: weight(&[1]) };
    assert!(none.scorer_supplier(&ctx).unwrap().is_none());
}
