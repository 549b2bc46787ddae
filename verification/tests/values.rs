use std::collections::BTreeMap;
use std::sync::Arc;

use rucene::error::LuceneError;
use rucene::search::bulk_scorer::{BulkScorer, ScoreCollector};
use rucene::search::collector::CollectionError;
use rucene::search::doc_id_set_iterator::{DocIdSetIterator, DocIds, NO_MORE_DOCS};
use rucene::search::doc_values_access::{
    get_binary, get_numeric, get_sorted, get_sorted_numeric, get_sorted_set, FoundValues,
};
use rucene::search::double_values::{
    with_default, ConstantDoubleValues, DoubleNumber, DoubleValues, EmptyDoubleValues,
    ScorerDoubleValues, ZERO,
};
use rucene::search::double_values_comparator::{
    get_sort_field, get_sort_field_with_missing, DoubleKeys, LeafReaders,
};
use rucene::search::double_values_source::{
    constant, from_double_field, from_field, from_float_field, from_int_field, from_long_field,
    from_query, scores, to_long_values_source, to_sortable_long_double_values_source,
    DoubleValueDecoder, DoubleValuesSource, LongNumber, NumericReader, SourceExplanation,
    SourceWeight,
};
use rucene::search::double_values_source_rescorer::{
    default_combiner_name, rescore_hits, DoubleValuesSourceRescorer,
    DoubleValuesSourceRescorerImpl, SecondPass,
};
use rucene::search::explanation::Explanation;
use rucene::search::field_comparator::{FieldComparator, Scorable, SortValue};
use rucene::search::field_comparator_source::Pruning;
use rucene::search::field_exists_query::FieldExistsQuery;
use rucene::search::float_vector_similarity_values_source::{
    FloatVectorSimilarityValuesSource, VectorValues,
};
use rucene::search::full_precision_float_vector_similarity_values_source::FullPrecisionFloatVectorSimilarityValuesSource;
use rucene::search::index_searcher::{
    IndexReader, IndexSearcher, LeafReaderContext, NumClausesCheckVisitor, Query, ScoreDoc,
    SearchDefaults, SearchableQuery, Weight,
};
use rucene::search::leaf_reader::{
    DocCounts, DocValuesType, FieldInfo, LeafReader, VectorEncoding,
};
use rucene::search::query::{QueryKind, QueryNode};
use rucene::search::score_mode::ScoreMode;
use rucene::search::scorer::{Matching, Scorer};
use rucene::search::scorer_supplier::ScorerSupplier;
use rucene::search::source_values::{NumericDocValues, SourceValues, WeightScorer};
use rucene::search::top_docs::{TopDocs, TotalHits, TotalHitsRelation};
use rucene::search::vectors::{
    same_vector, FloatVectorValues, VectorReader, VectorScorer, VectorSimilarityFunction,
};
use rucene::util::bits::Bits;
use rucene::util::fixed_bit_set::FixedBitSet;
use rucene::util::models::{Integer, Natural, Sequence, Table};

#[derive(Clone)]
struct Ints {
    values: BTreeMap<i32, i64>,
    at: i32,
}

fn ints(pairs: &[(i32, i64)]) -> Ints {
    Ints { values: pairs.iter().copied().collect(), at: -1 }
}

impl DocIdSetIterator for Ints {
    fn view(&self) -> DocIds {
        unreachable!()
    }

    fn inv(&self) -> bool {
        unreachable!()
    }

    fn infallible(&self) -> bool {
        unreachable!()
    }

    fn reported_cost(&self) -> i64 {
        unreachable!()
    }

    fn doc_id(&self) -> i32 {
        self.at
    }

    fn next_doc(&mut self) -> Result<i32, LuceneError> {
        self.advance(self.at + 1)
    }

    fn advance(&mut self, target: i32) -> Result<i32, LuceneError> {
        self.at = self.values.range(target..).next().map_or(NO_MORE_DOCS, |(d, _)| *d);
        Ok(self.at)
    }

    fn cost(&self) -> i64 {
        self.values.len() as i64
    }
}

impl NumericDocValues for Ints {
    fn longs(&self) -> Table<Integer, i64> {
        unreachable!()
    }

    fn value_doc(&self) -> Option<Integer> {
        unreachable!()
    }

    fn values_from(&self) -> Integer {
        unreachable!()
    }

    fn values_ready(&self) -> bool {
        unreachable!()
    }

    fn values_infallible(&self) -> bool {
        unreachable!()
    }

    fn advance_exact(&mut self, doc: i32) -> Result<bool, LuceneError> {
        self.at = doc;
        Ok(self.values.contains_key(&doc))
    }

    fn long_value(&mut self) -> Result<i64, LuceneError> {
        Ok(self.values[&self.at])
    }
}

/// A leaf whose fields hold values of one kind each.
#[derive(Clone)]
struct Leaf {
    docs: i32,
    live: i32,
    fields: BTreeMap<String, (DocValuesType, Ints)>,
    norms: Option<Ints>,
    vector_dimension: i32,
    vector_count: Option<i32>,
    changes: i64,
    doc_count: i32,
    has_vectors: bool,
    float_vectors: bool,
}

fn one_field(name: &str, kind: DocValuesType, pairs: &[(i32, i64)]) -> Leaf {
    Leaf {
        docs: 10,
        live: 10,
        fields: [(name.to_string(), (kind, ints(pairs)))].into_iter().collect(),
        norms: None,
        vector_dimension: 0,
        vector_count: None,
        changes: -1,
        doc_count: 0,
        has_vectors: false,
        float_vectors: true,
    }
}

impl DocCounts for Leaf {
    fn docs(&self) -> i32 {
        unreachable!()
    }

    fn docs_with(&self, _field: Sequence<char>) -> Result<i32, LuceneError> {
        unreachable!()
    }

    fn max_doc(&self) -> i32 {
        self.docs
    }

    fn get_doc_count(&self, _field: &str) -> Result<i32, LuceneError> {
        Ok(self.doc_count)
    }
}

impl LeafReader for Leaf {
    type I = Ints;

    fn info(&self, _field: Sequence<char>) -> Option<FieldInfo> {
        unreachable!()
    }

    fn live_docs(&self) -> i32 {
        unreachable!()
    }

    fn deleted(&self) -> bool {
        unreachable!()
    }

    fn values(&self, _field: Sequence<char>, _kind: DocValuesType) -> Result<Option<Self::I>, LuceneError> {
        unreachable!()
    }

    fn norms(&self, _field: Sequence<char>) -> Result<Option<Self::I>, LuceneError> {
        unreachable!()
    }

    fn vectors(&self, _field: Sequence<char>, _encoding: VectorEncoding) -> Result<Option<Self::I>, LuceneError> {
        unreachable!()
    }

    fn vector_count(&self, _field: Sequence<char>, _encoding: VectorEncoding) -> Result<Option<i32>, LuceneError> {
        unreachable!()
    }

    fn skipper_docs(&self, _field: Sequence<char>) -> Result<Option<i32>, LuceneError> {
        unreachable!()
    }

    fn point_docs(&self, _field: Sequence<char>) -> Result<Option<i32>, LuceneError> {
        unreachable!()
    }

    fn term_docs(&self, _field: Sequence<char>) -> Result<Option<i32>, LuceneError> {
        unreachable!()
    }

    fn field_info(&self, field: &str) -> Option<FieldInfo> {
        self.fields.get(field).map(|(kind, _)| FieldInfo {
            name: field.to_string(),
            norms: self.norms.is_some(),
            doc_values_type: *kind,
            skip_index: false,
            doc_values_gen: self.changes,
            point_dimension_count: 0,
            indexed: false,
            vector_dimension: self.vector_dimension,
            vector_encoding: VectorEncoding::FLOAT32,
        })
    }

    fn num_docs(&self) -> i32 {
        self.live
    }

    fn has_deletions(&self) -> bool {
        self.live < self.docs
    }

    fn get_doc_values(&self, field: &str, kind: DocValuesType) -> Result<Option<Ints>, LuceneError> {
        if field == "broken" {
            return Err(LuceneError::Io("disk".to_string()));
        }
        Ok(self.fields.get(field).filter(|(k, _)| *k == kind).map(|(_, v)| v.clone()))
    }

    fn get_norm_values(&self, _field: &str) -> Result<Option<Ints>, LuceneError> {
        Ok(self.norms.clone())
    }

    fn get_vector_docs(
        &self,
        field: &str,
        _encoding: VectorEncoding,
    ) -> Result<Option<Ints>, LuceneError> {
        Ok(self.fields.get(field).map(|(_, v)| v.clone()))
    }

    fn get_vector_count(
        &self,
        _field: &str,
        _encoding: VectorEncoding,
    ) -> Result<Option<i32>, LuceneError> {
        Ok(self.vector_count)
    }

    fn get_skipper_docs(&self, _field: &str) -> Result<Option<i32>, LuceneError> {
        Ok(None)
    }

    fn get_point_docs(&self, _field: &str) -> Result<Option<i32>, LuceneError> {
        Ok(None)
    }

    fn get_term_docs(&self, _field: &str) -> Result<Option<i32>, LuceneError> {
        Ok(None)
    }
}

impl NumericReader for Leaf {
    fn integers_are_ready(&self, _field: Sequence<char>) {
        unreachable!()
    }
}

/// Matches given documents with given scores, of which the odd ones are not confirmed.
struct Hits {
    scores: BTreeMap<i32, i32>,
    at: i32,
    two_phase: bool,
    confirmed: usize,
}

impl WeightScorer for Hits {
    fn view(&self) -> DocIds {
        unreachable!()
    }

    fn scores(&self) -> Table<Integer, i32> {
        unreachable!()
    }

    fn two_phase(&self) -> bool {
        unreachable!()
    }

    fn inv(&self) -> bool {
        unreachable!()
    }

    fn infallible(&self) -> bool {
        unreachable!()
    }

    fn doc_id(&self) -> i32 {
        self.at
    }

    fn has_two_phase(&self) -> bool {
        self.two_phase
    }

    fn advance(&mut self, target: i32) -> Result<i32, LuceneError> {
        self.at = self.scores.range(target..).next().map_or(NO_MORE_DOCS, |(d, _)| *d);
        Ok(self.at)
    }

    fn matches(&mut self) -> Result<bool, LuceneError> {
        self.confirmed += 1;
        Ok(self.at % 2 == 0)
    }

    fn score(&mut self) -> Result<i32, LuceneError> {
        Ok(self.scores[&self.at])
    }
}

struct HitWeight {
    scores: BTreeMap<i32, i32>,
    two_phase: bool,
}

/// Nothing is of this type.
enum Unused {}

impl Scorer for Unused {
    fn view(&self) -> Matching {
        unreachable!()
    }

    fn inv(&self) -> bool {
        unreachable!()
    }

    fn infallible(&self) -> bool {
        unreachable!()
    }

    fn confirmed(&self) -> Sequence<Integer> {
        unreachable!()
    }

    fn doc_id(&self) -> i32 {
        match *self {}
    }

    fn next_approximation(&mut self) -> Result<i32, LuceneError> {
        match *self {}
    }

    fn advance_approximation(&mut self, _target: i32) -> Result<i32, LuceneError> {
        match *self {}
    }

    fn load_approximation(
        &mut self,
        _up_to: i32,
        _bit_set: &mut FixedBitSet,
        _offset: i32,
    ) -> Result<(), LuceneError> {
        match *self {}
    }

    fn cost(&self) -> i64 {
        match *self {}
    }

    fn has_two_phase(&self) -> bool {
        match *self {}
    }

    fn match_cost(&self) -> i32 {
        match *self {}
    }

    fn matches(&mut self) -> Result<bool, LuceneError> {
        match *self {}
    }

    fn hits_run_end(&self) -> Result<i32, LuceneError> {
        match *self {}
    }
}

impl BulkScorer for Unused {
    fn remaining(&self) -> Table<Integer, i32> {
        unreachable!()
    }

    fn inv(&self) -> bool {
        unreachable!()
    }

    fn infallible(&self) -> bool {
        unreachable!()
    }

    fn reported_cost(&self) -> i64 {
        unreachable!()
    }

    fn last_next(&self) -> Integer {
        unreachable!()
    }

    fn cost(&self) -> i64 {
        match *self {}
    }

    fn score<C: ScoreCollector, B: Bits>(
        &mut self,
        _collector: &mut C,
        _accept_docs: Option<&B>,
        _min: i32,
        _max: i32,
    ) -> Result<i32, CollectionError> {
        match *self {}
    }
}

impl ScorerSupplier for Unused {
    type S = Unused;
    type B = Unused;

    fn reported_cost(&self) -> i64 {
        unreachable!()
    }

    fn top_level(&self) -> bool {
        unreachable!()
    }

    fn supplied(&self, _lead_cost: i64) -> Self::S {
        unreachable!()
    }

    fn bulk_supplied(&self) -> Self::B {
        unreachable!()
    }

    fn infallible(&self) -> bool {
        unreachable!()
    }

    fn cost(&self) -> i64 {
        match *self {}
    }

    fn get(&mut self, _lead_cost: i64) -> Result<Unused, LuceneError> {
        match *self {}
    }

    fn bulk_scorer(&mut self) -> Result<Unused, LuceneError> {
        match *self {}
    }

    fn set_top_level_scoring_clause(&mut self) -> Result<(), LuceneError> {
        match *self {}
    }
}

impl Weight for HitWeight {
    type P = Unused;

    fn explained(&self, _ctx: LeafReaderContext, _doc: i32) -> Result<Explanation, LuceneError> {
        unreachable!()
    }

    fn supplier(&self, _ctx: LeafReaderContext) -> Result<Option<Self::P>, LuceneError> {
        unreachable!()
    }

    fn explain(&self, _ctx: &LeafReaderContext, doc: i32) -> Result<Explanation, LuceneError> {
        Ok(match self.scores.get(&doc) {
            Some(s) => Explanation::matched(*s, "hit".to_string(), vec![]),
            None => Explanation::no_match("no hit".to_string(), vec![]),
        })
    }

    fn scorer_supplier(&self, _ctx: &LeafReaderContext) -> Result<Option<Unused>, LuceneError> {
        Ok(None)
    }
}

impl SourceWeight for HitWeight {
    type S = Hits;

    fn scored(&self, _ctx: LeafReaderContext) -> Result<Option<Self::S>, LuceneError> {
        unreachable!()
    }

    fn scorer(&self, _ctx: &LeafReaderContext) -> Result<Option<Hits>, LuceneError> {
        if self.scores.is_empty() {
            return Ok(None);
        }
        Ok(Some(Hits {
            scores: self.scores.clone(),
            at: -1,
            two_phase: self.two_phase,
            confirmed: 0,
        }))
    }
}

#[derive(Clone)]
struct HitQuery {
    text: String,
    scores: BTreeMap<i32, i32>,
    clauses: usize,
}

fn hit_query(text: &str, pairs: &[(i32, i32)]) -> HitQuery {
    HitQuery { text: text.to_string(), scores: pairs.iter().copied().collect(), clauses: 1 }
}

impl Query for HitQuery {
    fn rank(&self) -> Natural {
        unreachable!()
    }

    fn next_form(&self) -> Option<Self> {
        unreachable!()
    }

    fn num_clauses(&self) -> Natural {
        unreachable!()
    }

    fn infallible(&self) -> bool {
        unreachable!()
    }

    fn rewriting_gets_closer(&self) {
        unreachable!()
    }

    fn rewrite(&self) -> Result<Option<HitQuery>, LuceneError> {
        Ok(None)
    }

    fn visit(&self, visitor: &mut NumClausesCheckVisitor) {
        for _ in 0..self.clauses {
            visitor.count_one();
        }
    }
}

impl QueryNode for HitQuery {
    fn node_kind(&self) -> QueryKind {
        unreachable!()
    }

    fn rendered(&self, _field: Sequence<char>) -> Sequence<char> {
        unreachable!()
    }

    fn equals(&self, _other: &Self) -> bool {
        unreachable!()
    }

    fn kind(&self) -> QueryKind {
        QueryKind::Other
    }

    fn to_query_string(&self, _field: &str) -> String {
        self.text.clone()
    }

    fn query_eq(&self, other: &Self) -> bool {
        self.text == other.text
    }
}

impl SearchableQuery for HitQuery {
    type W = HitWeight;

    fn weight(&self, _mode: ScoreMode, _boost: i32) -> Self::W {
        unreachable!()
    }

    fn preparable(&self) -> bool {
        unreachable!()
    }

    fn create_weight(&self, mode: ScoreMode, _boost: i32) -> Result<Arc<HitWeight>, LuceneError> {
        assert_eq!(mode, ScoreMode::COMPLETE);
        Ok(Arc::new(HitWeight { scores: self.scores.clone(), two_phase: false }))
    }
}

type Source = DoubleValuesSource<HitQuery>;

struct FixedScore(i32);

impl Scorable for FixedScore {
    fn current(&self) -> i32 {
        unreachable!()
    }

    fn infallible(&self) -> bool {
        unreachable!()
    }

    fn score(&mut self) -> Result<i32, LuceneError> {
        Ok(self.0)
    }
}

fn context(doc_base: i32, max_doc: i32) -> LeafReaderContext {
    LeafReaderContext { id: doc_base as u64, doc_base, max_doc, live_docs: None }
}

fn numbers(source: &Source, leaf: &Leaf, docs: &[i32]) -> Vec<Option<DoubleNumber>> {
    let scores: Option<EmptyDoubleValues> = None;
    let mut values = source.get_values(leaf, &context(0, 10), scores).unwrap();
    docs.iter()
        .map(|d| {
            if values.advance_exact(*d).unwrap() {
                Some(values.double_value().unwrap())
            } else {
                None
            }
        })
        .collect()
}

#[test]
fn defaults_fill_the_gaps() {
    let leaf = one_field("f", DocValuesType::NUMERIC, &[(2, 20)]);
    let source: Source = from_long_field("f");
    let scores: Option<EmptyDoubleValues> = None;
    let inner = source.get_values(&leaf, &context(0, 10), scores).unwrap();
    let mut values = with_default(inner, DoubleNumber::Double(7));
    assert_eq!(values.double_value().unwrap(), DoubleNumber::Double(7));
    assert!(values.advance_exact(1).unwrap());
    assert_eq!(values.double_value().unwrap(), DoubleNumber::Double(7));
    assert!(values.advance_exact(2).unwrap());
    assert_eq!(
        values.double_value().unwrap(),
        DoubleNumber::Decoded(20, DoubleValueDecoder::Long)
    );
}

#[test]
fn empty_constant_and_score_values() {
    let mut none = EmptyDoubleValues::default();
    assert!(!none.advance_exact(3).unwrap());
    match none.double_value() {
        Err(LuceneError::UnsupportedOperation(m)) => {
            assert_eq!(m, "DoubleValues.EMPTY has no values")
        }
        _ => panic!(),
    }
    let mut same = ConstantDoubleValues::new(DoubleNumber::Double(3));
    assert!(same.advance_exact(3).unwrap());
    assert_eq!(same.double_value().unwrap(), DoubleNumber::Double(3));
    let mut score = ScorerDoubleValues::new(FixedScore(12));
    assert!(score.advance_exact(0).unwrap());
    assert_eq!(score.double_value().unwrap(), DoubleNumber::Score(12));
    assert_eq!(ZERO, 0.0f64.to_bits() as i64);
}

#[test]
fn field_sources_decode_the_integers_of_a_field() {
    let leaf = one_field("f", DocValuesType::NUMERIC, &[(1, 5), (4, -6)]);
    let source: Source = from_double_field("f");
    assert_eq!(
        numbers(&source, &leaf, &[0, 1, 4]),
        vec![
            None,
            Some(DoubleNumber::Decoded(5, DoubleValueDecoder::DoubleBits)),
            Some(DoubleNumber::Decoded(-6, DoubleValueDecoder::DoubleBits)),
        ]
    );
    assert_eq!(source.to_source_string(), "double(f)");
    assert!(!source.needs_scores());
    assert!(source.is_cacheable(&leaf));
    assert!(!source.is_cacheable(&Leaf { changes: 2, ..leaf.clone() }));
    let other: Source = from_field("g", DoubleValueDecoder::Long);
    assert!(other.is_cacheable(&leaf));
    assert_eq!(numbers(&other, &leaf, &[1]), vec![None]);
    let f: Source = from_float_field("f");
    assert!(!source.source_eq(&f));
    let i: Source = from_int_field("f");
    assert!(i.source_eq(&from_long_field("f")));
}

#[test]
fn wrong_kinds_of_values_are_reported() {
    let leaf = one_field("f", DocValuesType::SORTED, &[(1, 5)]);
    let source: Source = from_long_field("f");
    let scores: Option<EmptyDoubleValues> = None;
    match source.get_values(&leaf, &context(0, 10), scores) {
        Err(LuceneError::IllegalState(m)) => assert_eq!(
            m,
            "unexpected docvalues type SORTED for field 'f' (expected=NUMERIC). \
             Re-index with correct docvalues type."
        ),
        _ => panic!(),
    }
    let broken: Source = from_long_field("broken");
    let scores: Option<EmptyDoubleValues> = None;
    assert!(matches!(
        broken.get_values(&leaf, &context(0, 10), scores),
        Err(LuceneError::Io(_))
    ));
}

#[test]
fn score_sources_need_scores() {
    let leaf = one_field("f", DocValuesType::NUMERIC, &[]);
    let source: Source = scores();
    assert!(source.needs_scores());
    assert!(!source.is_cacheable(&leaf));
    assert_eq!(source.to_source_string(), "scores");
    let none: Option<EmptyDoubleValues> = None;
    match source.get_values(&leaf, &context(0, 10), none) {
        Err(LuceneError::IllegalState(m)) => {
            assert_eq!(m, "DoubleValuesSource.SCORES requires scores")
        }
        _ => panic!(),
    }
    let given = ConstantDoubleValues::new(DoubleNumber::Score(4));
    match source.get_values(&leaf, &context(0, 10), Some(given)) {
        Ok(SourceValues::Scores(mut v)) => {
            assert_eq!(v.double_value().unwrap(), DoubleNumber::Score(4))
        }
        _ => panic!(),
    }
}

fn searcher(leaves: Vec<LeafReaderContext>) -> (IndexSearcher<(), (), (), (), ()>, SearchDefaults<(), (), ()>) {
    let defaults: SearchDefaults<(), (), ()> = SearchDefaults::new(Arc::new(()));
    let reader = Arc::new(IndexReader {
        description: "r".to_string(),
        max_doc: leaves.iter().map(|l| l.max_doc).sum(),
        leaves: leaves.into_iter().map(Arc::new).collect(),
    });
    (IndexSearcher::with_executor(reader, Some(()), &defaults).unwrap(), defaults)
}

#[test]
fn query_sources_must_be_rewritten() {
    let leaf = one_field("f", DocValuesType::NUMERIC, &[]);
    let source: Source = from_query(hit_query("q", &[(3, 30), (5, 50)]));
    assert_eq!(source.to_source_string(), "score(q)");
    let none: Option<EmptyDoubleValues> = None;
    match source.get_values(&leaf, &context(0, 10), none) {
        Err(LuceneError::UnsupportedOperation(m)) => {
            assert_eq!(m, "This DoubleValuesSource must be rewritten")
        }
        _ => panic!(),
    }
    let (searcher, defaults) = searcher(vec![context(0, 10)]);
    let prepared = source.rewrite(&searcher, &defaults, 1).unwrap();
    assert_eq!(prepared.to_source_string(), "score(q)");
    assert!(!prepared.is_cacheable(&leaf));
    assert_eq!(
        numbers(&prepared, &leaf, &[2, 3, 4, 5, 6]),
        vec![None, Some(DoubleNumber::Score(30)), None, Some(DoubleNumber::Score(50)), None]
    );
    let same: Source = from_query(hit_query("q", &[]));
    assert!(same.source_eq(&from_query(hit_query("q", &[(1, 1)]))));
    let again = same.rewrite(&searcher, &defaults, 2).unwrap();
    assert!(!prepared.source_eq(&again));
    assert_eq!(numbers(&again, &leaf, &[1]), vec![None]);
    let huge: Source = from_query(HitQuery { clauses: 2000, ..hit_query("q", &[]) });
    assert!(matches!(
        huge.rewrite(&searcher, &defaults, 3),
        Err(LuceneError::ResourceLimit(_))
    ));
}

#[test]
fn confirmed_matches_are_confirmed_once() {
    let leaf = one_field("f", DocValuesType::NUMERIC, &[]);
    let weight = Arc::new(HitWeight {
        scores: [(3, 30), (4, 40)].into_iter().collect(),
        two_phase: true,
    });
    let source: Source = DoubleValuesSource::Weight { weight, id: 1, query: "q".to_string() };
    assert_eq!(
        numbers(&source, &leaf, &[1, 3, 3, 4, 4, 9]),
        vec![
            None,
            None,
            None,
            Some(DoubleNumber::Score(40)),
            Some(DoubleNumber::Score(40)),
            None
        ]
    );
}

#[test]
fn sources_explain_their_numbers() {
    let leaf = one_field("f", DocValuesType::NUMERIC, &[(1, 5)]);
    let ctx = context(0, 10);
    let said = || Explanation::matched(8, "said".to_string(), vec![]);
    let source: Source = from_long_field("f");
    match source.explain(&leaf, &ctx, 1, said()).unwrap() {
        SourceExplanation::Value { number, description } => {
            assert_eq!(number, DoubleNumber::Decoded(5, DoubleValueDecoder::Long));
            assert_eq!(description, "double(f)");
        }
        _ => panic!(),
    }
    assert!(matches!(
        source.explain(&leaf, &ctx, 2, said()).unwrap(),
        SourceExplanation::NoValue { .. }
    ));
    match constant::<HitQuery>(6, "6.0".to_string()).explain(&leaf, &ctx, 2, said()).unwrap() {
        SourceExplanation::Value { number, description } => {
            assert_eq!(number, DoubleNumber::Double(6));
            assert_eq!(description, "constant(6.0)");
        }
        _ => panic!(),
    }
    match scores::<HitQuery>().explain(&leaf, &ctx, 2, said()).unwrap() {
        SourceExplanation::Given(e) => assert_eq!(e.value, 8),
        _ => panic!(),
    }
    assert!(from_query(hit_query("q", &[])).explain(&leaf, &ctx, 2, said()).is_err());
}

#[test]
fn numbers_are_seen_as_integers() {
    let leaf = one_field("f", DocValuesType::NUMERIC, &[(1, 5)]);
    let long = to_long_values_source::<HitQuery>(from_long_field("f"));
    assert_eq!(long.to_source_string(), "long(double(f))");
    assert!(long.is_cacheable(&leaf));
    assert!(!long.needs_scores());
    let none: Option<EmptyDoubleValues> = None;
    let mut values = long.get_values(&leaf, &context(0, 10), none).unwrap();
    assert!(values.advance_exact(1).unwrap());
    let number = DoubleNumber::Decoded(5, DoubleValueDecoder::Long);
    assert_eq!(values.long_value().unwrap(), LongNumber::Truncated(number));
    let sortable = to_sortable_long_double_values_source::<HitQuery>(from_long_field("f"));
    assert_eq!(sortable.to_source_string(), "sortableLong(double(f))");
    assert!(!sortable.is_cacheable(&leaf));
    let none: Option<EmptyDoubleValues> = None;
    let mut values = sortable.get_values(&leaf, &context(0, 10), none).unwrap();
    values.advance_exact(1).unwrap();
    assert_eq!(values.long_value().unwrap(), LongNumber::Sortable(number));
    assert!(!long.source_eq(&sortable));
    let (searcher, defaults) = searcher(vec![context(0, 10)]);
    let rewritten = sortable.rewrite(&searcher, &defaults, 1).unwrap();
    assert!(rewritten.source_eq(&long));
}

struct Readers(Vec<Leaf>);

impl LeafReaders<Leaf> for Readers {
    fn reader_of(&self, _ctx: LeafReaderContext) -> Leaf {
        unreachable!()
    }

    fn leaf_reader(&self, ctx: &LeafReaderContext) -> Leaf {
        self.0[(ctx.doc_base / 10) as usize].clone()
    }
}

struct Keys;

impl DoubleKeys for Keys {
    fn key(&self, _number: DoubleNumber) -> i64 {
        unreachable!()
    }

    fn key_of(&self, number: DoubleNumber) -> i64 {
        match number {
            DoubleNumber::Score(s) => s as i64,
            DoubleNumber::Double(k) => k,
            DoubleNumber::Decoded(raw, _) => raw,
        }
    }
}

#[test]
fn hits_are_compared_by_the_numbers_of_a_source() {
    let leaf = one_field("f", DocValuesType::NUMERIC, &[(1, 5), (3, 2)]);
    let source: Arc<Source> = Arc::new(from_long_field("f"));
    let field = get_sort_field_with_missing(
        source.clone(),
        true,
        DoubleNumber::Double(4),
        Arc::new(Readers(vec![leaf])),
        Arc::new(Keys),
    );
    assert_eq!((field.field.as_str(), field.reverse), ("double(f)", true));
    let mut c = field.get_comparator(3, Pruning::NONE).unwrap();
    let mut scorer = FixedScore(0);
    c.copy(0, 0, &mut scorer).unwrap();
    c.get_leaf_comparator(&context(0, 10)).unwrap();
    c.copy(1, 1, &mut scorer).unwrap();
    assert_eq!(c.compare(0, 1), -1);
    assert_eq!(c.compare(1, 2), 1);
    c.set_bottom(0).unwrap();
    assert_eq!(c.compare_bottom(2, &mut scorer).unwrap(), 0);
    assert_eq!(c.compare_bottom(3, &mut scorer).unwrap(), 1);
    c.set_top_value(SortValue::Double(9));
    c.set_top_value(SortValue::Int(1));
    assert_eq!(c.compare_top(4, &mut scorer).unwrap(), 1);
    assert!(c.value(1).equals(&SortValue::Double(5)));
}

#[test]
fn hits_are_compared_by_scores_through_a_source() {
    let leaf = one_field("f", DocValuesType::NUMERIC, &[]);
    let field = get_sort_field(
        Arc::new(scores::<HitQuery>()),
        false,
        Arc::new(Readers(vec![leaf])),
        Arc::new(Keys),
    );
    let mut c = field.get_comparator(2, Pruning::NONE).unwrap();
    c.get_leaf_comparator(&context(0, 10)).unwrap();
    c.copy(0, 1, &mut FixedScore(7)).unwrap();
    c.copy(1, 2, &mut FixedScore(9)).unwrap();
    assert_eq!(c.compare(0, 1), -1);
}

struct Add;

impl DoubleValuesSourceRescorerImpl for Add {
    fn combined(&self, _first_pass_score: i32, _value_present: bool, _number: DoubleNumber) -> i32 {
        unreachable!()
    }

    fn name(&self) -> Sequence<char> {
        unreachable!()
    }

    fn combine(&self, first: i32, present: bool, number: DoubleNumber) -> i32 {
        match number {
            DoubleNumber::Decoded(raw, _) => first + raw as i32,
            DoubleNumber::Score(s) => first + s,
            DoubleNumber::Double(k) => {
                assert!(!present && k == ZERO);
                first
            }
        }
    }

    fn combiner_name(&self) -> String {
        default_combiner_name()
    }
}

fn top_docs(pairs: &[(i32, i32)]) -> TopDocs {
    TopDocs {
        total_hits: TotalHits { value: 9, relation: TotalHitsRelation::GreaterThanOrEqualTo },
        score_docs: pairs
            .iter()
            .map(|(doc, score)| ScoreDoc { doc: *doc, score: *score, shard_index: 2 })
            .collect(),
    }
}

fn two_leaves() -> (Vec<LeafReaderContext>, Readers) {
    let first = one_field("f", DocValuesType::NUMERIC, &[(1, 100)]);
    let second = one_field("f", DocValuesType::NUMERIC, &[(2, 50)]);
    (vec![context(0, 10), context(10, 10)], Readers(vec![first, second]))
}

#[test]
fn hits_are_rescored_and_sorted() {
    let (leaves, readers) = two_leaves();
    let (searcher, defaults) = searcher(leaves);
    let rescorer = DoubleValuesSourceRescorer::new(from_long_field::<HitQuery>("f"), Add);
    assert_eq!(rescorer.values_source().to_source_string(), "double(f)");
    assert_eq!(rescorer.combiner().combiner_name(), "DoubleValuesSourceRescorer");
    let first = top_docs(&[(12, 7), (1, 6), (15, 60), (3, 57)]);
    let top = rescorer.rescore(&searcher, &defaults, 1, &readers, &first, 3).unwrap();
    assert_eq!(top.total_hits, first.total_hits);
    let found: Vec<(i32, i32, i32)> =
        top.score_docs.iter().map(|h| (h.doc, h.score, h.shard_index)).collect();
    assert_eq!(found, vec![(1, 106, 2), (15, 60, 2), (3, 57, 2)]);
}

#[test]
fn hits_outside_the_leaves_are_reported() {
    let (leaves, readers) = two_leaves();
    let leaves: Vec<Arc<LeafReaderContext>> = leaves.into_iter().map(Arc::new).collect();
    let source: Source = from_long_field("f");
    match rescore_hits(&source, &Add, &readers, &leaves, &top_docs(&[(25, 1), (20, 1)]), 5) {
        Err(LuceneError::IllegalState(m)) => assert_eq!(
            m,
            "hit docId=20greater than last searcher leaf maxDoc=20 Ensure firstPassTopDocs were \
             produced by the searcher provided to rescore."
        ),
        _ => panic!(),
    }
    match rescore_hits(&source, &Add, &readers, &[], &top_docs(&[]), 5) {
        Err(LuceneError::IllegalState(m)) => assert_eq!(m, "the provided searcher has no leaf"),
        _ => panic!(),
    }
    let score_source: Source = scores();
    assert!(rescore_hits(&score_source, &Add, &readers, &leaves, &top_docs(&[(1, 1)]), 5).is_err());
    assert!(rescore_hits(&score_source, &Add, &readers, &leaves, &top_docs(&[]), 5).is_ok());
}

#[test]
fn rescored_hits_are_explained() {
    let explain = |doc: i32| {
        let (leaves, readers) = two_leaves();
        let (searcher, defaults) = searcher(leaves);
        DoubleValuesSourceRescorer::new(from_long_field::<HitQuery>("f"), Add).explain(
            &searcher,
            &defaults,
            1,
            &readers,
            Explanation::matched(4, "first".to_string(), vec![]),
            doc,
        )
    };
    let e = explain(12).unwrap();
    assert_eq!(e.value, 54);
    assert_eq!(
        e.description,
        "combined score from firstPass and DoubleValuesSource=double(f) using \
         DoubleValuesSourceRescorer"
    );
    assert_eq!((e.first.value, e.first.description.as_str()), (4, "first pass score"));
    assert_eq!(e.first.details[0].description, "first");
    match e.second {
        SecondPass::Value { number, description, .. } => {
            assert_eq!(number, DoubleNumber::Decoded(50, DoubleValueDecoder::Long));
            assert_eq!(description, "value from DoubleValuesSource");
        }
        _ => panic!(),
    }
    let e = explain(3).unwrap();
    assert_eq!(e.value, 4);
    match e.second {
        SecondPass::NoValue(x) => assert_eq!(x.description, "no value in DoubleValuesSource"),
        _ => panic!(),
    }
    match explain(20) {
        Err(LuceneError::IllegalArgument(m)) => {
            assert_eq!(m, "docId=20 not found in any leaf in provided searcher")
        }
        _ => panic!(),
    }
    let (leaves, readers) = two_leaves();
    let (searcher, defaults) = searcher(leaves);
    let huge: Source = from_query(HitQuery { clauses: 2000, ..hit_query("q", &[]) });
    let explained = DoubleValuesSourceRescorer::new(huge, Add).explain(
        &searcher,
        &defaults,
        1,
        &readers,
        Explanation::matched(4, "first".to_string(), vec![]),
        12,
    );
    assert!(matches!(explained, Err(LuceneError::ResourceLimit(_))));
}

struct Similar {
    scores: BTreeMap<i32, i32>,
    at: i32,
}

impl VectorScorer for Similar {
    fn view(&self) -> DocIds {
        unreachable!()
    }

    fn scores(&self) -> Table<Integer, i32> {
        unreachable!()
    }

    fn inv(&self) -> bool {
        unreachable!()
    }

    fn infallible(&self) -> bool {
        unreachable!()
    }

    fn doc_id(&self) -> i32 {
        self.at
    }

    fn advance(&mut self, target: i32) -> Result<i32, LuceneError> {
        self.at = self.scores.range(target..).next().map_or(NO_MORE_DOCS, |(d, _)| *d);
        Ok(self.at)
    }

    fn score(&mut self) -> Result<i32, LuceneError> {
        Ok(self.scores[&self.at])
    }
}

#[derive(Clone)]
struct Vectors;

fn similar(score: i32) -> Similar {
    Similar { scores: [(2, score), (5, score + 1)].into_iter().collect(), at: -1 }
}

impl FloatVectorValues for Vectors {
    type S = Similar;

    fn scored(&self, _vector: Sequence<u32>) -> Result<Option<Self::S>, LuceneError> {
        unreachable!()
    }

    fn exactly_scored(&self, _vector: Sequence<u32>) -> Result<Option<Self::S>, LuceneError> {
        unreachable!()
    }

    fn scored_by(&self, _function: VectorSimilarityFunction, _vector: Sequence<u32>) -> Result<Self::S, LuceneError> {
        unreachable!()
    }

    fn scorer(&self, vector: &[u32]) -> Result<Option<Similar>, LuceneError> {
        Ok(if vector.is_empty() { None } else { Some(similar(10)) })
    }

    fn rescorer(&self, _vector: &[u32]) -> Result<Option<Similar>, LuceneError> {
        Ok(Some(similar(20)))
    }

    fn compared(
        &self,
        _function: VectorSimilarityFunction,
        _vector: &[u32],
    ) -> Result<Similar, LuceneError> {
        Ok(similar(30))
    }
}

impl VectorReader for Leaf {
    type V = Vectors;

    fn float_vectors(&self, _field: Sequence<char>) -> Result<Option<Self::V>, LuceneError> {
        unreachable!()
    }

    fn checked(&self, _field: Sequence<char>) -> Result<(), LuceneError> {
        unreachable!()
    }

    fn get_float_vector_values(&self, _field: &str) -> Result<Option<Vectors>, LuceneError> {
        Ok(if self.has_vectors { Some(Vectors) } else { None })
    }

    fn check_float_field(&self, _field: &str) -> Result<(), LuceneError> {
        if self.float_vectors {
            Ok(())
        } else {
            Err(LuceneError::IllegalState("bytes".to_string()))
        }
    }
}

/// A leaf with vectors of a number of dimensions in the field `v`.
fn vector_leaf(dimension: Option<i32>, has_vectors: bool, float_vectors: bool) -> Leaf {
    let name = if dimension.is_some() { "v" } else { "w" };
    Leaf {
        vector_dimension: dimension.unwrap_or(0),
        has_vectors,
        float_vectors,
        ..one_field(name, DocValuesType::NONE, &[])
    }
}

fn bits(vector: &[f32]) -> Vec<u32> {
    vector.iter().map(|x| x.to_bits()).collect()
}

#[test]
fn vectors_are_equal_with_equal_numbers() {
    assert!(same_vector(&bits(&[1.0, 0.0]), &bits(&[1.0, -0.0])));
    assert!(!same_vector(&bits(&[1.0]), &bits(&[1.5])));
    assert!(!same_vector(&bits(&[f32::NAN]), &bits(&[f32::NAN])));
    assert!(same_vector(&bits(&[f32::INFINITY]), &bits(&[f32::INFINITY])));
    assert!(!same_vector(&bits(&[1.0]), &bits(&[1.0, 2.0])));
}

fn scored(values: VectorValues<Similar>, docs: &[i32]) -> Vec<Option<DoubleNumber>> {
    let mut v = values;
    docs.iter()
        .map(|d| if v.advance_exact(*d).unwrap() { Some(v.double_value().unwrap()) } else { None })
        .collect()
}

#[test]
fn vector_source_scores_documents() {
    let source = FloatVectorSimilarityValuesSource::new(
        bits(&[1.0]),
        "[1.0]".to_string(),
        "v".to_string(),
    );
    assert_eq!(source.field_name(), "v");
    assert!(source.is_cacheable() && !source.needs_scores());
    assert_eq!(
        source.to_source_string(),
        "FloatVectorSimilarityValuesSource(fieldName=v queryVector=[1.0])"
    );
    assert!(source.source_eq(&source));
    let leaf = vector_leaf(Some(1), true, true);
    assert_eq!(
        scored(source.get_values(&leaf).unwrap(), &[1, 2, 2, 4, 5, 6]),
        vec![
            None,
            Some(DoubleNumber::Score(10)),
            Some(DoubleNumber::Score(10)),
            None,
            Some(DoubleNumber::Score(11)),
            None
        ]
    );
    let none = vector_leaf(None, false, true);
    assert!(source.get_scorer(&none).unwrap().is_none());
    assert!(matches!(source.get_values(&none).unwrap(), VectorValues::Empty(_)));
    assert_eq!(scored(source.get_values(&none).unwrap(), &[2]), vec![None]);
    let bytes = vector_leaf(None, false, false);
    assert!(source.get_values(&bytes).is_err());
}

fn similar_source() -> Source {
    DoubleValuesSource::Vectors(FloatVectorSimilarityValuesSource::new(
        bits(&[1.0]),
        "[1.0]".to_string(),
        "v".to_string(),
    ))
}

fn exactly_similar_source() -> Source {
    DoubleValuesSource::FullPrecisionVectors(
        FullPrecisionFloatVectorSimilarityValuesSource::with_field_similarity(
            bits(&[1.0]),
            "[1.0]".to_string(),
            "v".to_string(),
        ),
    )
}

#[test]
fn similarities_are_numbers_like_others() {
    let leaf = vector_leaf(Some(1), true, true);
    let ctx = context(0, 10);
    for (source, name, score) in [
        (similar_source(), "FloatVectorSimilarityValuesSource(fieldName=v ", 10),
        (exactly_similar_source(), "FullPrecisionFloatVectorSimilarityValuesSource(fieldName=v ", 20),
    ] {
        assert_eq!(numbers(&source, &leaf, &[1, 2]), vec![None, Some(DoubleNumber::Score(score))]);
        assert!(source.to_source_string().starts_with(name));
        assert!(source.is_cacheable(&leaf) && !source.needs_scores());
        assert!(source.source_eq(&source));
        let said = || Explanation::matched(8, "said".to_string(), vec![]);
        match source.explain(&leaf, &ctx, 5, said()).unwrap() {
            SourceExplanation::Value { number, description } => {
                assert_eq!(number, DoubleNumber::Score(score + 1));
                assert_eq!(description, source.to_source_string());
            }
            _ => panic!(),
        }
        assert!(matches!(
            source.explain(&leaf, &ctx, 3, said()).unwrap(),
            SourceExplanation::NoValue { .. }
        ));
        assert!(source.explain(&vector_leaf(None, false, false), &ctx, 3, said()).is_err());
        let (searcher, defaults) = searcher(vec![context(0, 10)]);
        let readers = Readers(vec![leaf.clone()]);
        let first = top_docs(&[(2, 7), (5, 1), (6, 40)]);
        let top = DoubleValuesSourceRescorer::new(source, Add)
            .rescore(&searcher, &defaults, 1, &readers, &first, 3)
            .unwrap();
        let found: Vec<(i32, i32)> = top.score_docs.iter().map(|h| (h.doc, h.score)).collect();
        assert_eq!(found, vec![(6, 40), (2, 7 + score), (5, 2 + score)]);
    }
    assert!(!similar_source().source_eq(&exactly_similar_source()));
    let field = get_sort_field(
        Arc::new(similar_source()),
        false,
        Arc::new(Readers(vec![leaf])),
        Arc::new(Keys),
    );
    let mut c = field.get_comparator(2, Pruning::NONE).unwrap();
    c.get_leaf_comparator(&ctx).unwrap();
    c.copy(0, 2, &mut FixedScore(0)).unwrap();
    c.copy(1, 5, &mut FixedScore(0)).unwrap();
    assert_eq!(c.compare(0, 1), -1);
}

#[test]
fn full_precision_source_checks_dimensions() {
    let source = FullPrecisionFloatVectorSimilarityValuesSource::new(
        bits(&[1.0, 2.0]),
        "[1.0, 2.0]".to_string(),
        "v".to_string(),
        VectorSimilarityFunction::COSINE,
    );
    assert_eq!(
        source.to_source_string(),
        "FullPrecisionFloatVectorSimilarityValuesSource(fieldName=v \
         vectorSimilarityFunction=COSINE queryVector=[1.0, 2.0])"
    );
    let own = FullPrecisionFloatVectorSimilarityValuesSource::with_field_similarity(
        bits(&[1.0, 2.0]),
        "[1.0, 2.0]".to_string(),
        "v".to_string(),
    );
    assert!(own.to_source_string().contains("vectorSimilarityFunction=null"));
    assert!(!own.source_eq(&source));
    assert!(own.source_eq(&own) && own.is_cacheable() && !own.needs_scores());
    let leaf = vector_leaf(Some(2), true, true);
    assert_eq!(
        scored(source.get_similarity_scores(&leaf).unwrap(), &[2]),
        vec![Some(DoubleNumber::Score(30))]
    );
    assert_eq!(scored(own.get_values(&leaf).unwrap(), &[5]), vec![Some(DoubleNumber::Score(21))]);
    for (dimension, shown) in [(Some(3), "3"), (None, "0")] {
        let leaf = vector_leaf(dimension, true, true);
        match own.get_values(&leaf) {
            Err(LuceneError::IllegalArgument(m)) => assert_eq!(
                m,
                format!("Query vector dimension does not match field dimension: 2 != {}", shown)
            ),
            _ => panic!(),
        }
    }
}

#[test]
fn reads_fall_back_to_single_values() {
    let leaf = one_field("f", DocValuesType::NUMERIC, &[(1, 5)]);
    assert!(matches!(get_numeric(&leaf, "f").unwrap(), FoundValues::Values(_)));
    assert!(matches!(get_sorted_numeric(&leaf, "f").unwrap(), FoundValues::Singleton(_)));
    assert!(matches!(get_sorted_numeric(&leaf, "g").unwrap(), FoundValues::Empty));
    match get_sorted_set(&leaf, "f") {
        Err(LuceneError::IllegalState(m)) => assert_eq!(
            m,
            "unexpected docvalues type NUMERIC for field 'f' (expected one of [SORTED, \
             SORTED_SET]). Re-index with correct docvalues type."
        ),
        _ => panic!(),
    }
    assert!(get_binary(&leaf, "f").is_err());
    assert!(get_sorted(&leaf, "f").is_err());
    let terms = one_field("f", DocValuesType::SORTED, &[(1, 5)]);
    assert!(matches!(get_sorted_set(&terms, "f").unwrap(), FoundValues::Singleton(_)));
    assert!(get_binary(&terms, "broken").is_err());
}

#[test]
fn documents_with_a_field_are_found() {
    let query = FieldExistsQuery::new("f");
    assert_eq!(query.get_field(), "f");
    assert_eq!(query.to_query_string(), "FieldExistsQuery [field=f]");
    assert!(query.query_eq(&query));
    assert!(!query.query_eq(&FieldExistsQuery::new("g")));
    let leaf = one_field("f", DocValuesType::NUMERIC, &[(1, 5), (4, 2)]);
    let mut it = query.scorer(&leaf).unwrap().unwrap();
    assert_eq!(it.next_doc().unwrap(), 1);
    assert_eq!(it.next_doc().unwrap(), 4);
    assert!(query.is_cacheable(&leaf));
    assert_eq!(query.count(&leaf).unwrap(), -1);
    assert!(!query.rewrite(&leaf, &[leaf.clone()]).unwrap());
    let nothing = one_field("f", DocValuesType::NONE, &[]);
    match query.scorer(&nothing) {
        Err(LuceneError::IllegalState(m)) => assert_eq!(
            m,
            "FieldExistsQuery requires that the field indexes doc values, norms or vectors, but \
             field 'f' exists and indexes neither of these data structures"
        ),
        _ => panic!(),
    }
    let full = Leaf { norms: Some(ints(&[(0, 1)])), doc_count: 10, ..leaf.clone() };
    assert!(query.rewrite(&full, &[full.clone()]).unwrap());
    assert_eq!(query.count(&full).unwrap(), 10);
    let vectors = Leaf { vector_dimension: 3, vector_count: Some(10), ..leaf };
    assert!(query.rewrite(&vectors, &[vectors.clone()]).unwrap());
    assert!(!query.rewrite(&vectors, &[Leaf { vector_count: None, ..vectors.clone() }]).unwrap());
}
