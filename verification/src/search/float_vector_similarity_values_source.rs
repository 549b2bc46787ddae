//! Numbers that say how similar the vectors of documents are to a vector.

use vstd::prelude::*;
use vstd::string::*;

use crate::error::LuceneError;
use crate::search::double_values::{DoubleNumber, DoubleValues, EmptyDoubleValues};
use crate::search::vectors::{
    equal_vectors, same_vector, FloatVectorValues, VectorDoubleValues, VectorReader, VectorScorer,
};
use crate::util::text::same_text;

verus! {

/// The scores of the documents of a leaf.
pub enum VectorValues<S: VectorScorer> {
    /// The documents that have vectors have scores.
    Scored(VectorDoubleValues<S>),
    /// No document has a vector.
    Empty(EmptyDoubleValues),
}

impl<S: VectorScorer> DoubleValues for VectorValues<S> {
    open spec fn numbers(&self) -> Map<int, DoubleNumber> {
        match *self {
            VectorValues::Scored(v) => v.numbers(),
            VectorValues::Empty(v) => v.numbers(),
        }
    }

    open spec fn current(&self) -> Option<int> {
        match *self {
            VectorValues::Scored(v) => v.current(),
            VectorValues::Empty(v) => v.current(),
        }
    }

    open spec fn reachable_from(&self) -> int {
        match *self {
            VectorValues::Scored(v) => v.reachable_from(),
            VectorValues::Empty(v) => v.reachable_from(),
        }
    }

    open spec fn inv(&self) -> bool {
        match *self {
            VectorValues::Scored(v) => v.inv(),
            VectorValues::Empty(v) => v.inv(),
        }
    }

    open spec fn infallible(&self) -> bool {
        match *self {
            VectorValues::Scored(v) => v.infallible(),
            VectorValues::Empty(v) => v.infallible(),
        }
    }

    fn double_value(&mut self) -> (r: Result<DoubleNumber, LuceneError>) {
        match self {
            VectorValues::Scored(v) => v.double_value(),
            VectorValues::Empty(v) => v.double_value(),
        }
    }

    fn advance_exact(&mut self, doc: i32) -> (r: Result<bool, LuceneError>) {
        match self {
            VectorValues::Scored(v) => v.advance_exact(doc),
            VectorValues::Empty(v) => v.advance_exact(doc),
        }
    }
}

/// Whether `values` are those of what scores the documents of a leaf, before the first
/// document; without any, no document has a score.
pub open spec fn are_values_of<S: VectorScorer>(
    scorer: Option<S>,
    values: VectorValues<S>,
) -> bool {
    match scorer {
        None => values matches VectorValues::Empty(e) && e.current() is None,
        Some(scorer) => values matches VectorValues::Scored(v) && v.inv() && v.scorer() == scorer
            && v.current() is None && v.reachable_from() == 0,
    }
}

/// The number of a document, given what scores the documents of its leaf.
pub open spec fn score_of<S: VectorScorer>(scorer: Option<S>, doc: int) -> Option<DoubleNumber> {
    match scorer {
        Some(scorer) => if scorer.scores().contains_key(doc) {
            Some(DoubleNumber::Score(scorer.scores()[doc]))
        } else {
            None
        },
        None => None,
    }
}

/// How similar the vectors of a field are to a vector.
#[derive(Debug)]
pub struct FloatVectorSimilarityValuesSource {
    /// The bits of the numbers of the vector.
    pub query_vector: Vec<u32>,
    /// The rendering of the vector.
    pub vector_text: String,
    /// The field.
    pub field: String,
}

impl FloatVectorSimilarityValuesSource {
    /// Creates a source. `vector` has the bits of the numbers of a vector, and
    /// `vector_text` is its rendering.
    pub fn new(vector: Vec<u32>, vector_text: String, field_name: String) -> (r: Self)
        ensures
            r.query_vector == vector,
            r.vector_text == vector_text,
            r.field == field_name,
    {
        FloatVectorSimilarityValuesSource { query_vector: vector, vector_text, field: field_name }
    }

    /// Returns the field.
    pub fn field_name(&self) -> (r: &str)
        ensures
            r@ == self.field@,
    {
        self.field.as_str()
    }

    /// Returns whether the scores of a leaf can be cached.
    pub fn is_cacheable(&self) -> (r: bool)
        ensures
            r,
    {
        true
    }

    /// Returns whether the scores of a search are needed.
    pub fn needs_scores(&self) -> (r: bool)
        ensures
            !r,
    {
        false
    }

    /// What [`Self::get_scorer`] returns.
    pub open spec fn scorer_of<R: VectorReader>(&self, reader: R) -> Result<
        Option<<R::V as FloatVectorValues>::S>,
        LuceneError,
    > {
        match reader.float_vectors(self.field@) {
            Err(e) => Err(e),
            Ok(None) => match reader.checked(self.field@) {
                Ok(()) => Ok(None),
                Err(e) => Err(e),
            },
            Ok(Some(values)) => values.scored(self.query_vector@),
        }
    }

    /// Returns what scores the documents of a leaf; `None` when there are no vectors.
    ///
    /// # Errors
    ///
    /// That of a field with vectors of another kind; whatever reading the vectors fails with.
    pub fn get_scorer<R: VectorReader>(&self, reader: &R) -> (r: Result<
        Option<<R::V as FloatVectorValues>::S>,
        LuceneError,
    >)
        ensures
            r == self.scorer_of(*reader),
            r matches Ok(Some(s)) ==> s.inv() && s.view().doc == -1,
    {
        match reader.get_float_vector_values(self.field.as_str()) {
            Err(e) => Err(e),
            Ok(None) => match reader.check_float_field(self.field.as_str()) {
                Ok(()) => Ok(None),
                Err(e) => Err(e),
            },
            Ok(Some(values)) => values.scorer(self.query_vector.as_slice()),
        }
    }

    /// Whether reading the scores of a leaf ends as it should.
    pub open spec fn opens<R: VectorReader>(
        &self,
        reader: R,
        r: Result<VectorValues<<R::V as FloatVectorValues>::S>, LuceneError>,
    ) -> bool {
        match self.scorer_of(reader) {
            Err(e) => r matches Err(f) && f == e,
            Ok(scorer) => r matches Ok(values) && are_values_of(scorer, values),
        }
    }

    /// Whether the scores of a leaf can be read, and reading them never fails.
    pub open spec fn opens_always<R: VectorReader>(&self, reader: R) -> bool {
        self.scorer_of(reader) matches Ok(scorer) && (scorer matches Some(s) ==> s.infallible())
    }

    /// The number of a document of a leaf.
    pub open spec fn number_of<R: VectorReader>(&self, reader: R, doc: int) -> Option<
        DoubleNumber,
    > {
        match self.scorer_of(reader) {
            Ok(scorer) => score_of(scorer, doc),
            Err(_) => None,
        }
    }

    /// Returns the scores of the documents of a leaf.
    ///
    /// # Errors
    ///
    /// As [`Self::get_scorer`].
    pub fn get_values<R: VectorReader>(&self, reader: &R) -> (r: Result<
        VectorValues<<R::V as FloatVectorValues>::S>,
        LuceneError,
    >)
        ensures
            self.opens(*reader, r),
    {
        match self.get_scorer(reader) {
            Err(e) => Err(e),
            Ok(None) => Ok(VectorValues::Empty(EmptyDoubleValues::new())),
            Ok(Some(scorer)) => Ok(VectorValues::Scored(VectorDoubleValues::new(scorer))),
        }
    }

    /// Whether two sources have the same field and equal vectors.
    pub open spec fn equals(&self, other: &Self) -> bool {
        self.field@ == other.field@ && equal_vectors(self.query_vector@, other.query_vector@)
    }

    /// Returns whether two sources have the same field and equal vectors.
    pub fn source_eq(&self, other: &Self) -> (r: bool)
        ensures
            r == self.equals(other),
    {
        same_text(self.field.as_str(), other.field.as_str()) && same_vector(
            self.query_vector.as_slice(),
            other.query_vector.as_slice(),
        )
    }

    /// The rendering of the source.
    pub open spec fn rendered(&self) -> Seq<char> {
        "FloatVectorSimilarityValuesSource(fieldName="@ + self.field@ + " queryVector="@
            + self.vector_text@ + ")"@
    }

    /// Renders the source.
    pub fn to_source_string(&self) -> (r: String)
        ensures
            r@ == self.rendered(),
    {
        let mut out = "FloatVectorSimilarityValuesSource(fieldName=".to_owned();
        out.append(self.field.as_str());
        out.append(" queryVector=");
        out.append(self.vector_text.as_str());
        out.append(")");
        out
    }
}

} // verus!
