//! Where the numbers of documents come from.

use std::sync::Arc;

use vstd::prelude::*;
use vstd::string::*;

use crate::error::LuceneError;
use crate::search::doc_id_set_iterator::NO_MORE_DOCS;
use crate::search::doc_values_access::{get_numeric, expected_kind, unexpected_kind, FoundValues};
use crate::search::double_values::{
    ConstantDoubleValues, DoubleNumber, DoubleValues, EmptyDoubleValues,
};
use crate::search::explanation::Explanation;
use crate::search::float_vector_similarity_values_source::FloatVectorSimilarityValuesSource;
use crate::search::full_precision_float_vector_similarity_values_source::FullPrecisionFloatVectorSimilarityValuesSource;
use crate::search::index_searcher::{
    final_form, is_too_many_nested_clauses, IndexSearcher, LeafReaderContext, SearchDefaults,
    SearchableQuery, Weight, UNIT_BOOST,
};
use crate::search::leaf_reader::{DocValuesType, LeafReader};
use crate::search::query::QueryNode;
use crate::search::score_mode::ScoreMode;
use crate::search::source_values::{
    FieldDoubleValues, NumericDocValues, SourceValues, WeightDoubleValues, WeightScorer,
};
use crate::search::vectors::{FloatVectorValues, VectorReader};
use crate::util::text::same_text;

verus! {

/// How the integers of a field stand for numbers.
#[derive(Debug, Clone, Copy, PartialEq, Eq, Hash, Structural)]
pub enum DoubleValueDecoder {
    /// They are the bits of double-precision numbers.
    DoubleBits,
    /// Their lower halves are the bits of single-precision numbers.
    FloatBits,
    /// They are the numbers.
    Long,
}

/// A query that is prepared for scoring its matches.
pub trait SourceWeight: Weight {
    /// Iterates over the matches.
    type S: WeightScorer;

    /// What [`Self::scorer`] returns.
    spec fn scored(&self, ctx: LeafReaderContext) -> Result<Option<Self::S>, LuceneError>;

    /// Returns an iterator over the matches in a leaf; `None` when there are none.
    ///
    /// # Errors
    ///
    /// Whatever reading the leaf fails with.
    fn scorer(&self, ctx: &LeafReaderContext) -> (r: Result<Option<Self::S>, LuceneError>)
        ensures
            r == self.scored(*ctx),
            r matches Ok(Some(s)) ==> s.inv() && s.view().doc == -1,
    ;
}

/// Reads the integers and the vectors of fields.
pub trait NumericReader: VectorReader where Self::I: NumericDocValues {
    /// The integers of a field are before the first document.
    proof fn integers_are_ready(&self, field: Seq<char>)
        ensures
            self.values(field, DocValuesType::NUMERIC) matches Ok(Some(v)) ==> v.values_ready()
                && v.value_doc() is None && v.values_from() <= 0,
    ;
}

/// Where the numbers of documents come from.
pub enum DoubleValuesSource<Q: SearchableQuery> {
    /// The scores of the search.
    Scores,
    /// The same number for every document.
    Constant {
        /// An integer that is ordered like the number.
        value: i64,
        /// The rendering of the number.
        text: String,
    },
    /// The numbers of a field.
    Field {
        /// The field.
        field: String,
        /// How its integers stand for numbers.
        decoder: DoubleValueDecoder,
    },
    /// The scores of the matches of a query; it must be rewritten before it is read.
    Query(Q),
    /// The scores of the matches of a query that is prepared.
    Weight {
        /// The query that is prepared.
        weight: Arc<Q::W>,
        /// Tells it from others.
        id: u64,
        /// The rendering of the query.
        query: String,
    },
    /// How similar the vectors of a field are to a vector.
    Vectors(FloatVectorSimilarityValuesSource),
    /// How similar the vectors of a field, as they were added, are to a vector.
    FullPrecisionVectors(FullPrecisionFloatVectorSimilarityValuesSource),
}

/// Creates the source of the numbers of a field.
pub fn from_field<Q: SearchableQuery>(field: &str, decoder: DoubleValueDecoder) -> (r:
    DoubleValuesSource<Q>)
    ensures
        r matches DoubleValuesSource::Field { field: f, decoder: d } && f@ == field@ && d
            == decoder,
{
    DoubleValuesSource::Field { field: field.to_owned(), decoder }
}

/// Creates the source of the double-precision numbers of a field.
pub fn from_double_field<Q: SearchableQuery>(field: &str) -> (r: DoubleValuesSource<Q>)
    ensures
        r matches DoubleValuesSource::Field { field: f, decoder: d } && f@ == field@ && d
            == DoubleValueDecoder::DoubleBits,
{
    from_field(field, DoubleValueDecoder::DoubleBits)
}

/// Creates the source of the single-precision numbers of a field.
pub fn from_float_field<Q: SearchableQuery>(field: &str) -> (r: DoubleValuesSource<Q>)
    ensures
        r matches DoubleValuesSource::Field { field: f, decoder: d } && f@ == field@ && d
            == DoubleValueDecoder::FloatBits,
{
    from_field(field, DoubleValueDecoder::FloatBits)
}

/// Creates the source of the 64-bit integers of a field.
pub fn from_long_field<Q: SearchableQuery>(field: &str) -> (r: DoubleValuesSource<Q>)
    ensures
        r matches DoubleValuesSource::Field { field: f, decoder: d } && f@ == field@ && d
            == DoubleValueDecoder::Long,
{
    from_field(field, DoubleValueDecoder::Long)
}

/// Creates the source of the 32-bit integers of a field.
pub fn from_int_field<Q: SearchableQuery>(field: &str) -> (r: DoubleValuesSource<Q>)
    ensures
        r matches DoubleValuesSource::Field { field: f, decoder: d } && f@ == field@ && d
            == DoubleValueDecoder::Long,
{
    from_long_field(field)
}

/// Creates a source with the same number for every document. `value` is ordered like the
/// number, and `text` is its rendering.
pub fn constant<Q: SearchableQuery>(value: i64, text: String) -> (r: DoubleValuesSource<Q>)
    ensures
        r == (DoubleValuesSource::<Q>::Constant { value, text }),
{
    DoubleValuesSource::Constant { value, text }
}

/// Creates the source of the scores of the matches of a query.
pub fn from_query<Q: SearchableQuery>(query: Q) -> (r: DoubleValuesSource<Q>)
    ensures
        r == DoubleValuesSource::Query(query),
{
    DoubleValuesSource::Query(query)
}

/// Creates the source of the scores of the search.
pub fn scores<Q: SearchableQuery>() -> (r: DoubleValuesSource<Q>)
    ensures
        r == DoubleValuesSource::<Q>::Scores,
{
    DoubleValuesSource::Scores
}

/// Why a document has a number, or why it has none.
pub enum SourceExplanation {
    /// It has a number.
    Value {
        /// The number.
        number: DoubleNumber,
        /// Where it comes from.
        description: String,
    },
    /// It has none.
    NoValue {
        /// Where it would come from.
        description: String,
    },
    /// What the search or the query says.
    Given(Explanation),
}

impl<Q: QueryNode + SearchableQuery> DoubleValuesSource<Q> where Q::W: SourceWeight {
    /// The rendering of the source.
    pub open spec fn rendered(&self) -> Seq<char> {
        match *self {
            DoubleValuesSource::Scores => "scores"@,
            DoubleValuesSource::Constant { value, text } => "constant("@ + text@ + ")"@,
            DoubleValuesSource::Field { field, decoder } => "double("@ + field@ + ")"@,
            DoubleValuesSource::Query(query) => "score("@ + query.rendered(""@) + ")"@,
            DoubleValuesSource::Weight { weight, id, query } => "score("@ + query@ + ")"@,
            DoubleValuesSource::Vectors(source) => source.rendered(),
            DoubleValuesSource::FullPrecisionVectors(source) => source.rendered(),
        }
    }

    /// Whether two sources have the same numbers.
    pub open spec fn equals(&self, other: &Self) -> bool {
        match (*self, *other) {
            (DoubleValuesSource::Scores, DoubleValuesSource::Scores) => true,
            (
                DoubleValuesSource::Constant { value: a, text: _ },
                DoubleValuesSource::Constant { value: b, text: _ },
            ) => a == b,
            (
                DoubleValuesSource::Field { field: f, decoder: a },
                DoubleValuesSource::Field { field: g, decoder: b },
            ) => f@ == g@ && a == b,
            (DoubleValuesSource::Query(a), DoubleValuesSource::Query(b)) => a.equals(&b),
            (
                DoubleValuesSource::Weight { weight: _, id: a, query: _ },
                DoubleValuesSource::Weight { weight: _, id: b, query: _ },
            ) => a == b,
            (DoubleValuesSource::Vectors(a), DoubleValuesSource::Vectors(b)) => a.equals(&b),
            (
                DoubleValuesSource::FullPrecisionVectors(a),
                DoubleValuesSource::FullPrecisionVectors(b),
            ) => a.equals(&b),
            _ => false,
        }
    }

    /// Whether reading the numbers of a leaf ends as it should.
    pub open spec fn opens<R: VectorReader, V: DoubleValues>(
        &self,
        reader: R,
        ctx: LeafReaderContext,
        scores: Option<V>,
        r: Result<
            SourceValues<
                V,
                R::I,
                <Q::W as SourceWeight>::S,
                <R::V as FloatVectorValues>::S,
            >,
            LuceneError,
        >,
    ) -> bool where R::I: NumericDocValues {
        match *self {
            DoubleValuesSource::Scores => match scores {
                Some(v) => r matches Ok(SourceValues::Scores(s)) && s == v,
                None => r matches Err(e) && e.is_illegal_state(
                    "DoubleValuesSource.SCORES requires scores"@,
                ),
            },
            DoubleValuesSource::Constant { value, text } => r matches Ok(
                SourceValues::Constant(c),
            ) && c.value() == DoubleNumber::Double(value) && c.current() is None,
            DoubleValuesSource::Field { field, decoder } => match reader.values(
                field@,
                DocValuesType::NUMERIC,
            ) {
                Err(e) => r matches Err(f) && f == e,
                Ok(Some(values)) => r matches Ok(SourceValues::Field(f)) && f == (
                FieldDoubleValues { values, decoder }),
                Ok(None) => if expected_kind(reader, field@, DocValuesType::NUMERIC, None) {
                    r matches Ok(SourceValues::Empty(e)) && e.current() is None
                } else {
                    r matches Err(e) && e.is_illegal_state(
                        unexpected_kind(
                            reader.info(field@)->0.doc_values_type,
                            field@,
                            DocValuesType::NUMERIC,
                            None,
                        ),
                    )
                },
            },
            DoubleValuesSource::Query(_) => r matches Err(e) && e.is_unsupported_operation(
                "This DoubleValuesSource must be rewritten"@,
            ),
            DoubleValuesSource::Weight { weight, id, query } => match weight.scored(ctx) {
                Err(e) => r matches Err(f) && f == e,
                Ok(None) => r matches Ok(SourceValues::Empty(e)) && e.current() is None,
                Ok(Some(scorer)) => r matches Ok(SourceValues::Weight(w)) && w.inv() && w.scorer()
                    == scorer && w.current() is None && w.reachable_from() == 0,
            },
            DoubleValuesSource::Vectors(source) => match r {
                Ok(SourceValues::Vectors(v)) => source.opens(reader, Ok(v)),
                Ok(_) => false,
                Err(e) => source.opens(reader, Err(e)),
            },
            DoubleValuesSource::FullPrecisionVectors(source) => match r {
                Ok(SourceValues::Vectors(v)) => source.opens(reader, Ok(v)),
                Ok(_) => false,
                Err(e) => source.opens(reader, Err(e)),
            },
        }
    }

    /// Whether the numbers of a leaf can be read, and reading them never fails.
    pub open spec fn opens_always<R: VectorReader>(&self, reader: R, ctx: LeafReaderContext) -> bool
        where R::I: NumericDocValues {
        match *self {
            DoubleValuesSource::Scores => true,
            DoubleValuesSource::Constant { value, text } => true,
            DoubleValuesSource::Field { field, decoder } => match reader.values(
                field@,
                DocValuesType::NUMERIC,
            ) {
                Err(_) => false,
                Ok(Some(values)) => values.values_infallible(),
                Ok(None) => expected_kind(reader, field@, DocValuesType::NUMERIC, None),
            },
            DoubleValuesSource::Query(_) => false,
            DoubleValuesSource::Weight { weight, id, query } => match weight.scored(ctx) {
                Err(_) => false,
                Ok(None) => true,
                Ok(Some(scorer)) => scorer.infallible(),
            },
            DoubleValuesSource::Vectors(source) => source.opens_always(reader),
            DoubleValuesSource::FullPrecisionVectors(source) => source.opens_always(reader),
        }
    }

    /// The number of a document of a leaf.
    pub open spec fn number_of<R: VectorReader>(
        &self,
        reader: R,
        ctx: LeafReaderContext,
        doc: int,
    ) -> Option<DoubleNumber> where R::I: NumericDocValues {
        match *self {
            DoubleValuesSource::Constant { value, text } => Some(DoubleNumber::Double(value)),
            DoubleValuesSource::Field { field, decoder } => match reader.values(
                field@,
                DocValuesType::NUMERIC,
            ) {
                Ok(Some(values)) => if values.longs().contains_key(doc) {
                    Some(DoubleNumber::Decoded(values.longs()[doc], decoder))
                } else {
                    None
                },
                _ => None,
            },
            DoubleValuesSource::Weight { weight, id, query } => match weight.scored(ctx) {
                Ok(Some(scorer)) => if scorer.scores().contains_key(doc) {
                    Some(DoubleNumber::Score(scorer.scores()[doc]))
                } else {
                    None
                },
                _ => None,
            },
            DoubleValuesSource::Vectors(source) => source.number_of(reader, doc),
            DoubleValuesSource::FullPrecisionVectors(source) => source.number_of(reader, doc),
            _ => None,
        }
    }

    /// Whether `prepared` is what a source is rewritten to: a query is rewritten and
    /// prepared for scoring, and any other source stays as it is.
    pub open spec fn rewrites_to(self, id: u64, prepared: Self) -> bool {
        match self {
            DoubleValuesSource::Query(query) => prepared matches DoubleValuesSource::Weight {
                weight,
                id: i,
                query: text,
            } && *weight == final_form(query).weight(ScoreMode::COMPLETE, UNIT_BOOST) && i == id
                && text@ == final_form(query).rendered(""@),
            _ => prepared == self,
        }
    }

    /// Whether rewriting a source succeeds: the query of a source, if it has one, can be
    /// rewritten and prepared, and does not have too many clauses.
    pub open spec fn can_rewrite(self, max_clause_count: i32) -> bool {
        match self {
            DoubleValuesSource::Query(query) => {
                &&& query.infallible()
                &&& final_form(query).preparable()
                &&& final_form(query).num_clauses() <= max_clause_count
            },
            _ => true,
        }
    }

    /// Whether the number of a document of a leaf can be explained without failing.
    pub open spec fn explains_always<R: VectorReader>(
        &self,
        reader: R,
        ctx: LeafReaderContext,
        doc: i32,
    ) -> bool where R::I: NumericDocValues {
        match *self {
            DoubleValuesSource::Weight { weight, id, query } => weight.explained(ctx, doc) is Ok,
            _ => self.opens_always(reader, ctx),
        }
    }

    /// Whether the query of a source, if it has one, has too many clauses to be rewritten.
    pub open spec fn has_too_many_clauses(self, max_clause_count: i32) -> bool {
        self matches DoubleValuesSource::Query(query) && final_form(query).num_clauses()
            > max_clause_count
    }

    /// Returns the numbers of the documents of a leaf.
    ///
    /// # Errors
    ///
    /// [`LuceneError::IllegalState`] if scores are needed and there are none, or if the
    /// field has no integers; [`LuceneError::UnsupportedOperation`] if the source must be
    /// rewritten; whatever reading the leaf fails with.
    pub fn get_values<R: VectorReader, V: DoubleValues>(
        &self,
        reader: &R,
        ctx: &LeafReaderContext,
        scores: Option<V>,
    ) -> (r: Result<
        SourceValues<V, R::I, <Q::W as SourceWeight>::S, <R::V as FloatVectorValues>::S>,
        LuceneError,
    >) where R::I: NumericDocValues
        ensures
            self.opens(*reader, *ctx, scores, r),
    {
        match self {
            DoubleValuesSource::Scores => match scores {
                Some(values) => Ok(SourceValues::Scores(values)),
                None => Err(
                    LuceneError::IllegalState(
                        "DoubleValuesSource.SCORES requires scores".to_owned(),
                    ),
                ),
            },
            DoubleValuesSource::Constant { value, text: _ } => Ok(
                SourceValues::Constant(ConstantDoubleValues::new(DoubleNumber::Double(*value))),
            ),
            DoubleValuesSource::Field { field, decoder } => match get_numeric(
                reader,
                field.as_str(),
            ) {
                Err(e) => Err(e),
                Ok(FoundValues::Values(values)) => Ok(
                    SourceValues::Field(FieldDoubleValues { values, decoder: *decoder }),
                ),
                Ok(FoundValues::Singleton(values)) => Ok(
                    SourceValues::Field(FieldDoubleValues { values, decoder: *decoder }),
                ),
                Ok(FoundValues::Empty) => Ok(SourceValues::Empty(EmptyDoubleValues::new())),
            },
            DoubleValuesSource::Query(_) => Err(
                LuceneError::UnsupportedOperation(
                    "This DoubleValuesSource must be rewritten".to_owned(),
                ),
            ),
            DoubleValuesSource::Weight { weight, id: _, query: _ } => match weight.scorer(ctx) {
                Err(e) => Err(e),
                Ok(None) => Ok(SourceValues::Empty(EmptyDoubleValues::new())),
                Ok(Some(scorer)) => Ok(SourceValues::Weight(WeightDoubleValues::new(scorer))),
            },
            DoubleValuesSource::Vectors(source) => match source.get_values(reader) {
                Ok(values) => Ok(SourceValues::Vectors(values)),
                Err(e) => Err(e),
            },
            DoubleValuesSource::FullPrecisionVectors(source) => match source.get_values(reader) {
                Ok(values) => Ok(SourceValues::Vectors(values)),
                Err(e) => Err(e),
            },
        }
    }

    /// Returns whether the scores of the search are needed.
    pub fn needs_scores(&self) -> (r: bool)
        ensures
            r == (*self is Scores),
    {
        match self {
            DoubleValuesSource::Scores => true,
            _ => false,
        }
    }

    /// Returns whether the numbers of a leaf can be cached.
    pub fn is_cacheable<R: LeafReader>(&self, reader: &R) -> (r: bool)
        ensures
            r == match *self {
                DoubleValuesSource::Constant { value, text } => true,
                DoubleValuesSource::Field { field, decoder } => match reader.info(field@) {
                    Some(info) => info.doc_values_gen <= -1,
                    None => true,
                },
                DoubleValuesSource::Vectors(_) => true,
                DoubleValuesSource::FullPrecisionVectors(_) => true,
                _ => false,
            },
    {
        match self {
            DoubleValuesSource::Constant { value: _, text: _ } => true,
            DoubleValuesSource::Vectors(source) => source.is_cacheable(),
            DoubleValuesSource::FullPrecisionVectors(source) => source.is_cacheable(),
            DoubleValuesSource::Field { field, decoder: _ } => match reader.field_info(
                field.as_str(),
            ) {
                Some(info) => info.doc_values_gen <= -1,
                None => true,
            },
            _ => false,
        }
    }

    /// Prepares the source for reading. `id` tells the query that is prepared, if any,
    /// from others.
    ///
    /// # Errors
    ///
    /// Whatever rewriting or preparing the query fails with.
    pub fn rewrite<S, C, P, T, E>(
        self,
        searcher: &IndexSearcher<S, C, P, T, E>,
        defaults: &SearchDefaults<S, C, P>,
        id: u64,
    ) -> (r: Result<Self, LuceneError>)
        requires
            defaults.max_clause_count >= 0,
        ensures
            r matches Ok(prepared) ==> self.rewrites_to(id, prepared),
            self.can_rewrite(defaults.max_clause_count) ==> r is Ok,
            self.has_too_many_clauses(defaults.max_clause_count) ==> r is Err,
            self matches DoubleValuesSource::Query(query) ==> query.infallible()
                && self.has_too_many_clauses(defaults.max_clause_count) ==> (r matches Err(e)
                && is_too_many_nested_clauses(e, defaults.max_clause_count)),
    {
        match self {
            DoubleValuesSource::Query(query) => {
                let rewritten = searcher.rewrite(query, defaults)?;
                let weight = rewritten.create_weight(ScoreMode::COMPLETE, UNIT_BOOST)?;
                let text = rewritten.to_query_string("");
                Ok(DoubleValuesSource::Weight { weight, id, query: text })
            },
            source => Ok(source),
        }
    }

    /// Returns whether two sources have the same numbers.
    pub fn source_eq(&self, other: &Self) -> (r: bool)
        ensures
            r == self.equals(other),
    {
        match (self, other) {
            (DoubleValuesSource::Scores, DoubleValuesSource::Scores) => true,
            (
                DoubleValuesSource::Constant { value: a, text: _ },
                DoubleValuesSource::Constant { value: b, text: _ },
            ) => *a == *b,
            (
                DoubleValuesSource::Field { field: f, decoder: a },
                DoubleValuesSource::Field { field: g, decoder: b },
            ) => same_text(f.as_str(), g.as_str()) && *a == *b,
            (DoubleValuesSource::Query(a), DoubleValuesSource::Query(b)) => a.query_eq(b),
            (
                DoubleValuesSource::Weight { weight: _, id: a, query: _ },
                DoubleValuesSource::Weight { weight: _, id: b, query: _ },
            ) => *a == *b,
            (DoubleValuesSource::Vectors(a), DoubleValuesSource::Vectors(b)) => a.source_eq(b),
            (
                DoubleValuesSource::FullPrecisionVectors(a),
                DoubleValuesSource::FullPrecisionVectors(b),
            ) => a.source_eq(b),
            _ => false,
        }
    }

    /// Renders the source.
    pub fn to_source_string(&self) -> (r: String)
        ensures
            r@ == self.rendered(),
    {
        match self {
            DoubleValuesSource::Scores => "scores".to_owned(),
            DoubleValuesSource::Constant { value: _, text } => {
                let mut out = "constant(".to_owned();
                out.append(text.as_str());
                out.append(")");
                out
            },
            DoubleValuesSource::Field { field, decoder: _ } => {
                let mut out = "double(".to_owned();
                out.append(field.as_str());
                out.append(")");
                out
            },
            DoubleValuesSource::Query(query) => {
                let mut out = "score(".to_owned();
                let text = query.to_query_string("");
                out.append(text.as_str());
                out.append(")");
                out
            },
            DoubleValuesSource::Weight { weight: _, id: _, query } => {
                let mut out = "score(".to_owned();
                out.append(query.as_str());
                out.append(")");
                out
            },
            DoubleValuesSource::Vectors(source) => source.to_source_string(),
            DoubleValuesSource::FullPrecisionVectors(source) => source.to_source_string(),
        }
    }

    /// Explains the number of a document of a leaf. `score_explanation` is what the search
    /// says of the document.
    ///
    /// # Errors
    ///
    /// As [`DoubleValuesSource::get_values`]; whatever reading the number fails with.
    pub fn explain<R: NumericReader>(
        &self,
        reader: &R,
        ctx: &LeafReaderContext,
        doc_id: i32,
        score_explanation: Explanation,
    ) -> (r: Result<SourceExplanation, LuceneError>) where R::I: NumericDocValues
        requires
            0 <= doc_id < NO_MORE_DOCS,
        ensures
            match *self {
                DoubleValuesSource::Scores => r == Ok::<SourceExplanation, LuceneError>(
                    SourceExplanation::Given(score_explanation),
                ),
                DoubleValuesSource::Query(_) => r matches Err(e) && e.is_unsupported_operation(
                    "This DoubleValuesSource must be rewritten"@,
                ),
                DoubleValuesSource::Weight { weight, id, query } => match weight.explained(
                    *ctx,
                    doc_id,
                ) {
                    Ok(e) => r == Ok::<SourceExplanation, LuceneError>(SourceExplanation::Given(e)),
                    Err(e) => r == Err::<SourceExplanation, LuceneError>(e),
                },
                _ => {
                    &&& self.opens_always(*reader, *ctx) ==> r is Ok
                    &&& *self matches DoubleValuesSource::Field { field, decoder } ==> {
                        match reader.values(field@, DocValuesType::NUMERIC) {
                            Err(e) => r == Err::<SourceExplanation, LuceneError>(e),
                            Ok(None) => !expected_kind(
                                *reader,
                                field@,
                                DocValuesType::NUMERIC,
                                None,
                            ) ==> (r matches Err(e) && e.is_illegal_state(
                                unexpected_kind(
                                    reader.info(field@)->0.doc_values_type,
                                    field@,
                                    DocValuesType::NUMERIC,
                                    None,
                                ),
                            )),
                            Ok(Some(_)) => true,
                        }
                    }
                    &&& *self matches DoubleValuesSource::Vectors(source) ==> forall|e: LuceneError|
                        #[trigger] source.opens(*reader, Err(e)) ==> (r matches Err(f)
                            && source.opens(*reader, Err(f)))
                    &&& *self matches DoubleValuesSource::FullPrecisionVectors(source) ==> forall|e: LuceneError|
                        #[trigger] source.opens(*reader, Err(e)) ==> (r matches Err(f)
                            && source.opens(*reader, Err(f)))
                    &&& r matches Ok(e) ==> match self.number_of(*reader, *ctx, doc_id as int) {
                        Some(n) => e matches SourceExplanation::Value { number, description }
                            && number == n && description@ == self.rendered(),
                        None => e matches SourceExplanation::NoValue { description } && description@
                            == self.rendered(),
                    }
                },
            },
    {
        let description = self.to_source_string();
        match self {
            DoubleValuesSource::Scores => {
                return Ok(SourceExplanation::Given(score_explanation));
            },
            DoubleValuesSource::Constant { value, text: _ } => {
                return Ok(
                    SourceExplanation::Value { number: DoubleNumber::Double(*value), description },
                );
            },
            DoubleValuesSource::Weight { weight, id: _, query: _ } => {
                return match weight.explain(ctx, doc_id) {
                    Ok(e) => Ok(SourceExplanation::Given(e)),
                    Err(e) => Err(e),
                };
            },
            DoubleValuesSource::Field { field, decoder: _ } => {
                proof {
                    reader.integers_are_ready(field@);
                }
            },
            _ => {},
        }
        let scores: Option<EmptyDoubleValues> = None;
        let mut values = self.get_values(reader, ctx, scores)?;
        if values.advance_exact(doc_id)? {
            let number = values.double_value()?;
            return Ok(SourceExplanation::Value { number, description });
        }
        Ok(SourceExplanation::NoValue { description })
    }
}

/// An integer, in the form in which it is known.
#[derive(Debug, Clone, Copy, PartialEq, Eq, Structural)]
pub enum LongNumber {
    /// A number without its fraction.
    Truncated(DoubleNumber),
    /// The integer that is ordered like a number.
    Sortable(DoubleNumber),
}

/// The integers that the numbers of documents are seen as.
pub struct DoubleToLongValues<V: DoubleValues> {
    /// The numbers.
    pub inner: V,
    /// Whether the integers are ordered like the numbers.
    pub sortable: bool,
}

impl<V: DoubleValues> DoubleToLongValues<V> {
    /// The integer that a number is seen as.
    pub open spec fn seen_as(&self, number: DoubleNumber) -> LongNumber {
        if self.sortable {
            LongNumber::Sortable(number)
        } else {
            LongNumber::Truncated(number)
        }
    }

    /// Returns the integer of the current document.
    ///
    /// # Errors
    ///
    /// Whatever reading the number fails with.
    pub fn long_value(&mut self) -> (r: Result<LongNumber, LuceneError>)
        requires
            old(self).inner.inv(),
        ensures
            final(self).inner.inv(),
            final(self).sortable == old(self).sortable,
            final(self).inner.numbers() == old(self).inner.numbers(),
            final(self).inner.current() == old(self).inner.current(),
            final(self).inner.infallible() == old(self).inner.infallible(),
            final(self).inner.reachable_from() <= old(self).inner.reachable_from(),
            old(self).inner.current() matches Some(d) ==> old(self).inner.numbers().contains_key(d)
                ==> {
                &&& old(self).inner.infallible() ==> r is Ok
                &&& r matches Ok(v) ==> v == old(self).seen_as(old(self).inner.numbers()[d])
            },
    {
        let value = self.inner.double_value()?;
        Ok(
            if self.sortable {
                LongNumber::Sortable(value)
            } else {
                LongNumber::Truncated(value)
            },
        )
    }

    /// Moves to a document; returns whether it has an integer.
    ///
    /// # Errors
    ///
    /// Whatever moving to the document fails with.
    pub fn advance_exact(&mut self, doc: i32) -> (r: Result<bool, LuceneError>)
        requires
            old(self).inner.inv(),
            old(self).inner.reachable_from() <= doc < NO_MORE_DOCS,
        ensures
            old(self).inner.infallible() ==> r is Ok,
            final(self).sortable == old(self).sortable,
            final(self).inner.inv(),
            final(self).inner.numbers() == old(self).inner.numbers(),
            final(self).inner.infallible() == old(self).inner.infallible(),
            r matches Ok(b) ==> {
                &&& final(self).inner.current() == Some(doc as int)
                &&& final(self).inner.reachable_from() <= doc
                &&& b == old(self).inner.numbers().contains_key(doc as int)
            },
    {
        self.inner.advance_exact(doc)
    }
}

/// Sees the numbers of a source as integers.
pub enum LongValuesSource<Q: SearchableQuery> {
    /// Without their fractions.
    Long(DoubleValuesSource<Q>),
    /// As integers that are ordered like them.
    SortableLong(DoubleValuesSource<Q>),
}

/// Sees the numbers of a source as integers, without their fractions.
pub fn to_long_values_source<Q: SearchableQuery>(source: DoubleValuesSource<Q>) -> (r:
    LongValuesSource<Q>)
    ensures
        r == LongValuesSource::Long(source),
{
    LongValuesSource::Long(source)
}

/// Sees the numbers of a source as integers that are ordered like them.
pub fn to_sortable_long_double_values_source<Q: SearchableQuery>(
    source: DoubleValuesSource<Q>,
) -> (r: LongValuesSource<Q>)
    ensures
        r == LongValuesSource::SortableLong(source),
{
    LongValuesSource::SortableLong(source)
}

impl<Q: QueryNode + SearchableQuery> LongValuesSource<Q> where Q::W: SourceWeight {
    /// The source of the numbers.
    pub open spec fn inner(&self) -> DoubleValuesSource<Q> {
        match *self {
            LongValuesSource::Long(inner) => inner,
            LongValuesSource::SortableLong(inner) => inner,
        }
    }

    /// The rendering of the source.
    pub open spec fn rendered(&self) -> Seq<char> {
        match *self {
            LongValuesSource::Long(inner) => "long("@ + inner.rendered() + ")"@,
            LongValuesSource::SortableLong(inner) => "sortableLong("@ + inner.rendered() + ")"@,
        }
    }

    /// Returns the integers of the documents of a leaf.
    ///
    /// # Errors
    ///
    /// As [`DoubleValuesSource::get_values`].
    pub fn get_values<R: VectorReader, V: DoubleValues>(
        &self,
        reader: &R,
        ctx: &LeafReaderContext,
        scores: Option<V>,
    ) -> (r: Result<
        DoubleToLongValues<
            SourceValues<V, R::I, <Q::W as SourceWeight>::S, <R::V as FloatVectorValues>::S>,
        >,
        LuceneError,
    >) where R::I: NumericDocValues
        ensures
            r matches Ok(v) ==> v.sortable == (*self is SortableLong),
            self.inner().opens(
                *reader,
                *ctx,
                scores,
                match r {
                    Ok(v) => Ok(v.inner),
                    Err(e) => Err(e),
                },
            ),
    {
        match self {
            LongValuesSource::Long(source) => match source.get_values(reader, ctx, scores) {
                Ok(inner) => Ok(DoubleToLongValues { inner, sortable: false }),
                Err(e) => Err(e),
            },
            LongValuesSource::SortableLong(source) => match source.get_values(reader, ctx, scores) {
                Ok(inner) => Ok(DoubleToLongValues { inner, sortable: true }),
                Err(e) => Err(e),
            },
        }
    }

    /// Returns whether the scores of the search are needed.
    pub fn needs_scores(&self) -> (r: bool)
        ensures
            r == (self.inner() is Scores),
    {
        match self {
            LongValuesSource::Long(inner) => inner.needs_scores(),
            LongValuesSource::SortableLong(inner) => inner.needs_scores(),
        }
    }

    /// Returns whether the integers of a leaf can be cached.
    pub fn is_cacheable<R: LeafReader>(&self, reader: &R) -> (r: bool)
        ensures
            r == match *self {
                LongValuesSource::Long(DoubleValuesSource::Constant { value, text }) => true,
                LongValuesSource::Long(DoubleValuesSource::Field { field, decoder }) =>
                match reader.info(field@) {
                    Some(info) => info.doc_values_gen <= -1,
                    None => true,
                },
                LongValuesSource::Long(DoubleValuesSource::Vectors(_)) => true,
                LongValuesSource::Long(DoubleValuesSource::FullPrecisionVectors(_)) => true,
                _ => false,
            },
    {
        match self {
            LongValuesSource::Long(inner) => inner.is_cacheable(reader),
            LongValuesSource::SortableLong(_) => false,
        }
    }

    /// Prepares the source for reading; it then gives integers without fractions.
    ///
    /// # Errors
    ///
    /// As [`DoubleValuesSource::rewrite`].
    pub fn rewrite<S, C, P, T, E>(
        self,
        searcher: &IndexSearcher<S, C, P, T, E>,
        defaults: &SearchDefaults<S, C, P>,
        id: u64,
    ) -> (r: Result<Self, LuceneError>)
        requires
            defaults.max_clause_count >= 0,
        ensures
            r matches Ok(source) ==> source is Long && self.inner().rewrites_to(id, source.inner()),
            self.inner().can_rewrite(defaults.max_clause_count) ==> r is Ok,
            self.inner().has_too_many_clauses(defaults.max_clause_count) ==> r is Err,
            self.inner() matches DoubleValuesSource::Query(query) ==> query.infallible()
                && self.inner().has_too_many_clauses(defaults.max_clause_count) ==> (r matches Err(
                e,
            ) && is_too_many_nested_clauses(e, defaults.max_clause_count)),
    {
        let inner = match self {
            LongValuesSource::Long(inner) => inner,
            LongValuesSource::SortableLong(inner) => inner,
        };
        let rewritten = inner.rewrite(searcher, defaults, id)?;
        Ok(to_long_values_source(rewritten))
    }

    /// Returns whether two sources have the same integers.
    pub fn source_eq(&self, other: &Self) -> (r: bool)
        ensures
            r == ((*self is Long) == (*other is Long) && self.inner().equals(&other.inner())),
    {
        match (self, other) {
            (LongValuesSource::Long(a), LongValuesSource::Long(b)) => a.source_eq(b),
            (LongValuesSource::SortableLong(a), LongValuesSource::SortableLong(b)) => a.source_eq(
                b,
            ),
            _ => false,
        }
    }

    /// Renders the source.
    pub fn to_source_string(&self) -> (r: String)
        ensures
            r@ == self.rendered(),
    {
        let text = match self {
            LongValuesSource::Long(inner) => inner.to_source_string(),
            LongValuesSource::SortableLong(inner) => inner.to_source_string(),
        };
        let mut out = match self {
            LongValuesSource::Long(_) => "long(".to_owned(),
            LongValuesSource::SortableLong(_) => "sortableLong(".to_owned(),
        };
        out.append(text.as_str());
        out.append(")");
        out
    }
}

impl<Q: QueryNode + SearchableQuery> DoubleValuesSource<Q> where Q::W: SourceWeight {
    /// The number of a document is what is stored for it: the same one for every document of a
    /// constant, the integer of the field, decoded, for a field, and the score of the query for a
    /// query. A document for which nothing is stored has no number.
    pub proof fn numbers_are_those_stored<R: VectorReader>(
        &self,
        reader: R,
        ctx: LeafReaderContext,
        doc: int,
    ) where R::I: NumericDocValues
        ensures
            self matches DoubleValuesSource::Constant { value, text } ==> self.number_of(
                reader,
                ctx,
                doc,
            ) == Some(DoubleNumber::Double(*value)),
            self matches DoubleValuesSource::Field { field, decoder } ==> {
                let stored = reader.values(field@, DocValuesType::NUMERIC);
                &&& self.number_of(reader, ctx, doc) is Some <==> stored is Ok && stored->Ok_0
                    is Some && stored->Ok_0->0.longs().dom().contains(doc)
                &&& self.number_of(reader, ctx, doc) is Some ==> self.number_of(reader, ctx, doc)
                    == Some(DoubleNumber::Decoded(stored->Ok_0->0.longs()[doc], *decoder))
            },
            self matches DoubleValuesSource::Weight { weight, id, query } ==> {
                let found = weight.scored(ctx);
                &&& self.number_of(reader, ctx, doc) is Some <==> found is Ok && found->Ok_0 is Some
                    && found->Ok_0->0.scores().dom().contains(doc)
                &&& self.number_of(reader, ctx, doc) is Some ==> self.number_of(reader, ctx, doc)
                    == Some(DoubleNumber::Score(found->Ok_0->0.scores()[doc]))
            },
    {
    }
}

} // verus!
