//! What is known of the fields of a leaf.

use vstd::prelude::*;

use crate::error::LuceneError;
use crate::search::doc_id_set_iterator::DocIdSetIterator;

verus! {

/// The kinds of values that documents can have in a field.
#[derive(Debug, Clone, Copy, PartialEq, Eq, Structural)]
pub enum DocValuesType {
    /// None.
    NONE,
    /// A number.
    NUMERIC,
    /// A byte string.
    BINARY,
    /// A term.
    SORTED,
    /// Several numbers.
    SORTED_NUMERIC,
    /// Several terms.
    SORTED_SET,
}

/// How the numbers of vectors are stored.
#[derive(Debug, Clone, Copy, PartialEq, Eq, Structural)]
pub enum VectorEncoding {
    /// As bytes.
    BYTE,
    /// As single-precision numbers.
    FLOAT32,
}

/// What a leaf stores of a field.
#[derive(Debug)]
pub struct FieldInfo {
    /// The name of the field.
    pub name: String,
    /// Whether the lengths of the field are stored.
    pub norms: bool,
    /// The kind of values.
    pub doc_values_type: DocValuesType,
    /// Whether the ranges of the values of blocks of documents are stored.
    pub skip_index: bool,
    /// Counts the changes of the values; -1 when there was none.
    pub doc_values_gen: i64,
    /// The number of dimensions of the points; 0 when there are none.
    pub point_dimension_count: i32,
    /// Whether the terms are stored.
    pub indexed: bool,
    /// The number of dimensions of the vectors; 0 when there are none.
    pub vector_dimension: i32,
    /// How the numbers of vectors are stored.
    pub vector_encoding: VectorEncoding,
}

/// Counts documents.
pub trait DocCounts {
    /// The number of documents, the deleted ones included.
    spec fn docs(&self) -> i32;

    /// The number of documents that have a field, the deleted ones included.
    spec fn docs_with(&self, field: Seq<char>) -> Result<i32, LuceneError>;

    /// Returns the number of documents, the deleted ones included.
    fn max_doc(&self) -> (r: i32)
        ensures
            r == self.docs(),
    ;

    /// Returns the number of documents that have a field, the deleted ones included.
    ///
    /// # Errors
    ///
    /// Whatever reading the index fails with.
    fn get_doc_count(&self, field: &str) -> (r: Result<i32, LuceneError>)
        ensures
            r == self.docs_with(field@),
    ;
}

/// Reads the fields of a leaf.
pub trait LeafReader: DocCounts {
    /// Iterates over the documents that have values.
    type I: DocIdSetIterator;

    /// What the leaf stores of a field.
    spec fn info(&self, field: Seq<char>) -> Option<FieldInfo>;

    /// The number of documents that are not deleted.
    spec fn live_docs(&self) -> i32;

    /// Whether documents are deleted.
    spec fn deleted(&self) -> bool;

    /// The documents that have values of a kind.
    spec fn values(&self, field: Seq<char>, kind: DocValuesType) -> Result<
        Option<Self::I>,
        LuceneError,
    >;

    /// The documents whose length in the field is stored.
    spec fn norms(&self, field: Seq<char>) -> Result<Option<Self::I>, LuceneError>;

    /// The documents that have vectors.
    spec fn vectors(&self, field: Seq<char>, encoding: VectorEncoding) -> Result<
        Option<Self::I>,
        LuceneError,
    >;

    /// The number of vectors.
    spec fn vector_count(&self, field: Seq<char>, encoding: VectorEncoding) -> Result<
        Option<i32>,
        LuceneError,
    >;

    /// The number of documents in the blocks whose ranges of values are stored.
    spec fn skipper_docs(&self, field: Seq<char>) -> Result<Option<i32>, LuceneError>;

    /// The number of documents that have points.
    spec fn point_docs(&self, field: Seq<char>) -> Result<Option<i32>, LuceneError>;

    /// The number of documents that have terms.
    spec fn term_docs(&self, field: Seq<char>) -> Result<Option<i32>, LuceneError>;

    /// Returns what the leaf stores of a field; `None` when it has no such field.
    fn field_info(&self, field: &str) -> (r: Option<FieldInfo>)
        ensures
            r == self.info(field@),
            r matches Some(info) ==> info.name@ == field@,
    ;

    /// Returns the number of documents that are not deleted.
    fn num_docs(&self) -> (r: i32)
        ensures
            r == self.live_docs(),
    ;

    /// Returns whether documents are deleted.
    fn has_deletions(&self) -> (r: bool)
        ensures
            r == self.deleted(),
    ;

    /// Returns the documents that have values of a kind; `None` when there are none.
    ///
    /// # Errors
    ///
    /// Whatever reading the leaf fails with.
    fn get_doc_values(&self, field: &str, kind: DocValuesType) -> (r: Result<
        Option<Self::I>,
        LuceneError,
    >)
        ensures
            r == self.values(field@, kind),
    ;

    /// Returns the documents whose length in the field is stored; `None` when there are
    /// none.
    ///
    /// # Errors
    ///
    /// Whatever reading the leaf fails with.
    fn get_norm_values(&self, field: &str) -> (r: Result<Option<Self::I>, LuceneError>)
        ensures
            r == self.norms(field@),
    ;

    /// Returns the documents that have vectors; `None` when there are none.
    ///
    /// # Errors
    ///
    /// Whatever reading the leaf fails with.
    fn get_vector_docs(&self, field: &str, encoding: VectorEncoding) -> (r: Result<
        Option<Self::I>,
        LuceneError,
    >)
        ensures
            r == self.vectors(field@, encoding),
    ;

    /// Returns the number of vectors; `None` when there are none.
    ///
    /// # Errors
    ///
    /// Whatever reading the leaf fails with.
    fn get_vector_count(&self, field: &str, encoding: VectorEncoding) -> (r: Result<
        Option<i32>,
        LuceneError,
    >)
        ensures
            r == self.vector_count(field@, encoding),
    ;

    /// Returns the number of documents in the blocks whose ranges of values are stored;
    /// `None` when there are none.
    ///
    /// # Errors
    ///
    /// Whatever reading the leaf fails with.
    fn get_skipper_docs(&self, field: &str) -> (r: Result<Option<i32>, LuceneError>)
        ensures
            r == self.skipper_docs(field@),
    ;

    /// Returns the number of documents that have points; `None` when there are none.
    ///
    /// # Errors
    ///
    /// Whatever reading the leaf fails with.
    fn get_point_docs(&self, field: &str) -> (r: Result<Option<i32>, LuceneError>)
        ensures
            r == self.point_docs(field@),
    ;

    /// Returns the number of documents that have terms; `None` when there are none.
    ///
    /// # Errors
    ///
    /// Whatever reading the leaf fails with.
    fn get_term_docs(&self, field: &str) -> (r: Result<Option<i32>, LuceneError>)
        ensures
            r == self.term_docs(field@),
    ;
}

} // verus!
