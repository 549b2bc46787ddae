//! Numbers that say how similar the vectors of documents, as they were added, are to a
//! vector.

use vstd::prelude::*;
use vstd::string::*;

use crate::error::LuceneError;
use crate::search::double_values::{DoubleNumber, EmptyDoubleValues};
use crate::search::float_vector_similarity_values_source::{are_values_of, score_of, VectorValues};
use crate::search::vectors::{
    equal_vectors, same_vector, FloatVectorValues, VectorDoubleValues, VectorReader, VectorScorer,
    VectorSimilarityFunction,
};
use crate::util::text::{append_signed, append_unsigned, decimal, decimal_int, same_text};

verus! {

/// The name of a function.
pub open spec fn function_name(function: Option<VectorSimilarityFunction>) -> Seq<char> {
    match function {
        None => "null"@,
        Some(VectorSimilarityFunction::EUCLIDEAN) => "EUCLIDEAN"@,
        Some(VectorSimilarityFunction::DOT_PRODUCT) => "DOT_PRODUCT"@,
        Some(VectorSimilarityFunction::COSINE) => "COSINE"@,
        Some(VectorSimilarityFunction::MAXIMUM_INNER_PRODUCT) => "MAXIMUM_INNER_PRODUCT"@,
    }
}

fn name_of(function: Option<VectorSimilarityFunction>) -> (r: &'static str)
    ensures
        r@ == function_name(function),
{
    match function {
        None => "null",
        Some(VectorSimilarityFunction::EUCLIDEAN) => "EUCLIDEAN",
        Some(VectorSimilarityFunction::DOT_PRODUCT) => "DOT_PRODUCT",
        Some(VectorSimilarityFunction::COSINE) => "COSINE",
        Some(VectorSimilarityFunction::MAXIMUM_INNER_PRODUCT) => "MAXIMUM_INNER_PRODUCT",
    }
}

/// How similar the vectors of a field, as they were added, are to a vector.
#[derive(Debug)]
pub struct FullPrecisionFloatVectorSimilarityValuesSource {
    /// The bits of the numbers of the vector.
    pub query_vector: Vec<u32>,
    /// The rendering of the vector.
    pub vector_text: String,
    /// The field.
    pub field: String,
    /// How similar vectors are; `None` for the function of the field.
    pub function: Option<VectorSimilarityFunction>,
}

impl FullPrecisionFloatVectorSimilarityValuesSource {
    /// Creates a source that compares vectors by the given function. `vector` has the bits
    /// of the numbers of a vector, and `vector_text` is its rendering.
    pub fn new(
        vector: Vec<u32>,
        vector_text: String,
        field_name: String,
        vector_similarity_function: VectorSimilarityFunction,
    ) -> (r: Self)
        ensures
            r.query_vector == vector,
            r.vector_text == vector_text,
            r.field == field_name,
            r.function == Some(vector_similarity_function),
    {
        FullPrecisionFloatVectorSimilarityValuesSource {
            query_vector: vector,
            vector_text,
            field: field_name,
            function: Some(vector_similarity_function),
        }
    }

    /// Creates a source that compares vectors by the function of the field.
    pub fn with_field_similarity(vector: Vec<u32>, vector_text: String, field_name: String) -> (r:
        Self)
        ensures
            r.query_vector == vector,
            r.vector_text == vector_text,
            r.field == field_name,
            r.function is None,
    {
        FullPrecisionFloatVectorSimilarityValuesSource {
            query_vector: vector,
            vector_text,
            field: field_name,
            function: None,
        }
    }

    /// The number of dimensions of the vectors of the field; 0 when there is no such field.
    pub open spec fn dimension<R: VectorReader>(&self, reader: R) -> i32 {
        match reader.info(self.field@) {
            Some(info) => info.vector_dimension,
            None => 0,
        }
    }

    /// What scores the documents of a leaf, when the vectors have as many dimensions as the
    /// vector; `None` when there is nothing to score.
    pub open spec fn scorer_of<V: FloatVectorValues>(&self, values: V) -> Result<
        Option<V::S>,
        LuceneError,
    > {
        match self.function {
            None => values.exactly_scored(self.query_vector@),
            Some(function) => match values.scored_by(function, self.query_vector@) {
                Ok(scorer) => Ok(Some(scorer)),
                Err(e) => Err(e),
            },
        }
    }

    /// Whether reading the scores of a leaf ends as it should.
    pub open spec fn opens<R: VectorReader>(
        &self,
        reader: R,
        r: Result<VectorValues<<R::V as FloatVectorValues>::S>, LuceneError>,
    ) -> bool {
        match reader.float_vectors(self.field@) {
            Err(e) => r matches Err(f) && f == e,
            Ok(None) => match reader.checked(self.field@) {
                Err(e) => r matches Err(f) && f == e,
                Ok(()) => r matches Ok(values) && are_values_of(None, values),
            },
            Ok(Some(values)) => if self.dimension(reader) != self.query_vector@.len() {
                r matches Err(e) && e.is_illegal_argument(
                    "Query vector dimension does not match field dimension: "@ + decimal(
                        self.query_vector@.len() as nat,
                    ) + " != "@ + decimal_int(self.dimension(reader) as int),
                )
            } else {
                match self.scorer_of(values) {
                    Err(e) => r matches Err(f) && f == e,
                    Ok(scorer) => r matches Ok(values) && are_values_of(scorer, values),
                }
            },
        }
    }

    /// What scores the documents of a leaf whose scores can be read; `None` when there is
    /// nothing to score.
    pub open spec fn scorer_in<R: VectorReader>(&self, reader: R) -> Option<
        <R::V as FloatVectorValues>::S,
    > {
        match reader.float_vectors(self.field@) {
            Ok(Some(values)) => if self.dimension(reader) == self.query_vector@.len() {
                match self.scorer_of(values) {
                    Ok(scorer) => scorer,
                    Err(_) => None,
                }
            } else {
                None
            },
            _ => None,
        }
    }

    /// Whether the scores of a leaf can be read, and reading them never fails.
    pub open spec fn opens_always<R: VectorReader>(&self, reader: R) -> bool {
        &&& match reader.float_vectors(self.field@) {
            Err(_) => false,
            Ok(None) => reader.checked(self.field@) is Ok,
            Ok(Some(values)) => self.dimension(reader) == self.query_vector@.len()
                && self.scorer_of(values) is Ok,
        }
        &&& self.scorer_in(reader) matches Some(scorer) ==> scorer.infallible()
    }

    /// The number of a document of a leaf.
    pub open spec fn number_of<R: VectorReader>(&self, reader: R, doc: int) -> Option<
        DoubleNumber,
    > {
        score_of(self.scorer_in(reader), doc)
    }

    /// Returns the scores of the documents of a leaf.
    ///
    /// # Errors
    ///
    /// As [`Self::get_values`].
    pub fn get_similarity_scores<R: VectorReader>(&self, reader: &R) -> (r: Result<
        VectorValues<<R::V as FloatVectorValues>::S>,
        LuceneError,
    >)
        ensures
            self.opens(*reader, r),
    {
        self.get_values(reader)
    }

    /// Returns whether the scores of a leaf can be cached.
    pub fn is_cacheable(&self) -> (r: bool)
        ensures
            r,
    {
        true
    }

    /// Returns whether the scores of a search are needed.
    pub fn needs_scores(&self) -> (r: bool)
        ensures
            !r,
    {
        false
    }

    /// Returns the scores of the documents of a leaf.
    ///
    /// # Errors
    ///
    /// [`LuceneError::IllegalArgument`] if the vectors have another number of dimensions
    /// than the vector; that of a field with vectors of another kind; whatever reading the
    /// vectors fails with.
    pub fn get_values<R: VectorReader>(&self, reader: &R) -> (r: Result<
        VectorValues<<R::V as FloatVectorValues>::S>,
        LuceneError,
    >)
        ensures
            self.opens(*reader, r),
    {
        let values = match reader.get_float_vector_values(self.field.as_str()) {
            Err(e) => {
                return Err(e);
            },
            Ok(None) => {
                return match reader.check_float_field(self.field.as_str()) {
                    Ok(()) => Ok(VectorValues::Empty(EmptyDoubleValues::new())),
                    Err(e) => Err(e),
                };
            },
            Ok(Some(values)) => values,
        };
        let dimension: i32 = match reader.field_info(self.field.as_str()) {
            Some(info) => info.vector_dimension,
            None => 0,
        };
        let len: usize = self.query_vector.len();
        if dimension < 0 || dimension as usize != len {
            let mut message = "Query vector dimension does not match field dimension: ".to_owned();
            append_unsigned(&mut message, len as u64);
            message.append(" != ");
            append_signed(&mut message, dimension as i64);
            return Err(LuceneError::IllegalArgument(message));
        }
        match self.function {
            None => match values.rescorer(self.query_vector.as_slice()) {
                Err(e) => Err(e),
                Ok(None) => Ok(VectorValues::Empty(EmptyDoubleValues::new())),
                Ok(Some(scorer)) => Ok(VectorValues::Scored(VectorDoubleValues::new(scorer))),
            },
            Some(function) => match values.compared(function, self.query_vector.as_slice()) {
                Err(e) => Err(e),
                Ok(scorer) => Ok(VectorValues::Scored(VectorDoubleValues::new(scorer))),
            },
        }
    }

    /// Whether two sources have the same field, the same function and equal vectors.
    pub open spec fn equals(&self, other: &Self) -> bool {
        self.field@ == other.field@ && self.function == other.function && equal_vectors(
            self.query_vector@,
            other.query_vector@,
        )
    }

    /// Returns whether two sources have the same field, the same function and equal vectors.
    pub fn source_eq(&self, other: &Self) -> (r: bool)
        ensures
            r == self.equals(other),
    {
        let same_function = match (self.function, other.function) {
            (None, None) => true,
            (Some(a), Some(b)) => a == b,
            _ => false,
        };
        same_text(self.field.as_str(), other.field.as_str()) && same_function && same_vector(
            self.query_vector.as_slice(),
            other.query_vector.as_slice(),
        )
    }

    /// The rendering of the source.
    pub open spec fn rendered(&self) -> Seq<char> {
        "FullPrecisionFloatVectorSimilarityValuesSource(fieldName="@ + self.field@
            + " vectorSimilarityFunction="@ + function_name(self.function) + " queryVector="@
            + self.vector_text@ + ")"@
    }

    /// Renders the source.
    pub fn to_source_string(&self) -> (r: String)
        ensures
            r@ == self.rendered(),
    {
        let mut out = "FullPrecisionFloatVectorSimilarityValuesSource(fieldName=".to_owned();
        out.append(self.field.as_str());
        out.append(" vectorSimilarityFunction=");
        out.append(name_of(self.function));
        out.append(" queryVector=");
        out.append(self.vector_text.as_str());
        out.append(")");
        out
    }
}

} // verus!
