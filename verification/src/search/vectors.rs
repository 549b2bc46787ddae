//! The vectors of a field, and how similar they are to a vector.

use vstd::prelude::*;

use crate::error::LuceneError;
use crate::search::doc_id_set_iterator::{is_first_from, DocIds, NO_MORE_DOCS};
use crate::search::double_values::{DoubleNumber, DoubleValues};
use crate::search::leaf_reader::LeafReader;

verus! {

/// How similar two vectors are.
#[derive(Debug, Clone, Copy, PartialEq, Eq, Structural)]
pub enum VectorSimilarityFunction {
    /// By their distance.
    EUCLIDEAN,
    /// By their dot product; both are unit vectors.
    DOT_PRODUCT,
    /// By the angle between them.
    COSINE,
    /// By their dot product.
    MAXIMUM_INNER_PRODUCT,
}

/// The magnitude of a single-precision number, of which `bits` are the bits.
pub open spec fn magnitude(bits: u32) -> u32 {
    bits % 0x8000_0000u32
}

/// Whether two single-precision numbers are equal: zeros are, whatever their signs, and
/// what is not a number equals nothing.
pub open spec fn equal_numbers(a: u32, b: u32) -> bool {
    (magnitude(a) == 0 && magnitude(b) == 0) || (a == b && magnitude(a) <= 0x7f80_0000)
}

/// Whether two vectors have equal numbers.
pub open spec fn equal_vectors(a: Seq<u32>, b: Seq<u32>) -> bool {
    a.len() == b.len() && forall|i: int| 0 <= i < a.len() ==> equal_numbers(#[trigger] a[i], b[i])
}

/// Returns whether two vectors have equal numbers.
pub fn same_vector(a: &[u32], b: &[u32]) -> (r: bool)
    ensures
        r == equal_vectors(a@, b@),
{
    if a.len() != b.len() {
        return false;
    }
    let mut i: usize = 0;
    while i < a.len()
        invariant
            i <= a@.len(),
            a@.len() == b@.len(),
            forall|j: int| 0 <= j < i ==> equal_numbers(#[trigger] a@[j], b@[j]),
        decreases a.len() - i,
    {
        let x: u32 = a[i] % 0x8000_0000;
        let y: u32 = b[i] % 0x8000_0000;
        if !((x == 0 && y == 0) || (a[i] == b[i] && x <= 0x7f80_0000)) {
            assert(!equal_numbers(a@[i as int], b@[i as int]));
            return false;
        }
        i += 1;
    }
    true
}

/// Iterates over the documents that have vectors, and scores them by how similar they are
/// to a vector.
pub trait VectorScorer {
    /// The documents, and the position among them.
    spec fn view(&self) -> DocIds;

    /// The scores of the documents.
    spec fn scores(&self) -> Map<int, i32>;

    /// The internal invariant of the implementation.
    spec fn inv(&self) -> bool;

    /// Whether no step fails.
    spec fn infallible(&self) -> bool;

    /// Returns the current document.
    fn doc_id(&self) -> (r: i32)
        requires
            self.inv(),
        ensures
            r == self.view().doc,
            self.view().valid(),
            self.scores().dom() == self.view().docs,
    ;

    /// Moves to the first document at or after `target`.
    ///
    /// # Errors
    ///
    /// Whatever reading that document fails with.
    fn advance(&mut self, target: i32) -> (r: Result<i32, LuceneError>)
        requires
            old(self).inv(),
            old(self).view().doc < target,
        ensures
            old(self).infallible() ==> r is Ok,
            final(self).infallible() == old(self).infallible(),
            final(self).inv(),
            final(self).scores() == old(self).scores(),
            r matches Ok(d) ==> {
                &&& final(self).view() == old(self).view().at(d as int)
                &&& is_first_from(old(self).view().docs, target as int, d as int)
            },
    ;

    /// Returns the score of the current document.
    ///
    /// # Errors
    ///
    /// Whatever reading the vector fails with.
    fn score(&mut self) -> (r: Result<i32, LuceneError>)
        requires
            old(self).inv(),
        ensures
            final(self).infallible() == old(self).infallible(),
            final(self).inv(),
            final(self).view() == old(self).view(),
            final(self).scores() == old(self).scores(),
            old(self).scores().contains_key(old(self).view().doc) ==> {
                &&& old(self).infallible() ==> r is Ok
                &&& r matches Ok(score) ==> score == old(self).scores()[old(self).view().doc]
            },
    ;
}

/// The scores of the documents that have vectors.
pub struct VectorDoubleValues<S: VectorScorer> {
    scorer: S,
    doc: Option<i32>,
    sound: Ghost<bool>,
}

impl<S: VectorScorer> VectorDoubleValues<S> {
    /// What scores the documents.
    pub closed spec fn scorer(&self) -> S {
        self.scorer
    }

    /// Creates the scores of the documents that a scorer iterates over.
    pub fn new(scorer: S) -> (r: Self)
        requires
            scorer.inv(),
            scorer.view().doc == -1,
        ensures
            r.inv(),
            r.scorer() == scorer,
            r.current() is None,
            r.reachable_from() == 0,
    {
        VectorDoubleValues { scorer, doc: None, sound: Ghost(true) }
    }
}

impl<S: VectorScorer> DoubleValues for VectorDoubleValues<S> {
    open spec fn numbers(&self) -> Map<int, DoubleNumber> {
        self.scorer().scores().map_values(|score: i32| DoubleNumber::Score(score))
    }

    closed spec fn current(&self) -> Option<int> {
        match self.doc {
            Some(d) => Some(d as int),
            None => None,
        }
    }

    closed spec fn reachable_from(&self) -> int {
        if !self.sound@ {
            NO_MORE_DOCS as int
        } else {
            match self.doc {
                Some(d) => d as int,
                None => 0,
            }
        }
    }

    closed spec fn inv(&self) -> bool {
        &&& self.scorer.inv()
        &&& !self.sound@ ==> self.doc is None
        &&& self.sound@ ==> match self.doc {
            Some(d) => 0 <= d && is_first_from(
                self.scorer.view().docs,
                d as int,
                self.scorer.view().doc,
            ),
            None => self.scorer.view().doc == -1,
        }
    }

    open spec fn infallible(&self) -> bool {
        self.scorer().infallible()
    }

    fn double_value(&mut self) -> (r: Result<DoubleNumber, LuceneError>) {
        let _position: i32 = self.scorer.doc_id();
        let score: i32 = self.scorer.score()?;
        Ok(DoubleNumber::Score(score))
    }

    fn advance_exact(&mut self, doc: i32) -> (r: Result<bool, LuceneError>) {
        let position: i32 = self.scorer.doc_id();
        self.sound = Ghost(false);
        self.doc = None;
        if doc < position {
            self.doc = Some(doc);
            self.sound = Ghost(true);
            return Ok(false);
        }
        if position == doc {
            self.doc = Some(doc);
            self.sound = Ghost(true);
            return Ok(true);
        }
        let next: i32 = self.scorer.advance(doc)?;
        let _position: i32 = self.scorer.doc_id();
        self.doc = Some(doc);
        self.sound = Ghost(true);
        Ok(next == doc)
    }
}

/// The vectors of a field in a leaf.
pub trait FloatVectorValues: Sized {
    /// Scores documents by how similar their vectors are to a vector.
    type S: VectorScorer;

    /// What [`Self::scorer`] returns.
    spec fn scored(&self, vector: Seq<u32>) -> Result<Option<Self::S>, LuceneError>;

    /// What [`Self::rescorer`] returns.
    spec fn exactly_scored(&self, vector: Seq<u32>) -> Result<Option<Self::S>, LuceneError>;

    /// What [`Self::compared`] returns.
    spec fn scored_by(&self, function: VectorSimilarityFunction, vector: Seq<u32>) -> Result<
        Self::S,
        LuceneError,
    >;

    /// Returns what scores documents by the vectors as they are searched; `None` when there
    /// are none.
    ///
    /// # Errors
    ///
    /// Whatever reading the vectors fails with.
    fn scorer(&self, vector: &[u32]) -> (r: Result<Option<Self::S>, LuceneError>)
        ensures
            r == self.scored(vector@),
            r matches Ok(Some(s)) ==> s.inv() && s.view().doc == -1,
    ;

    /// Returns what scores documents by the vectors as they were added; `None` when there
    /// are none.
    ///
    /// # Errors
    ///
    /// Whatever reading the vectors fails with.
    fn rescorer(&self, vector: &[u32]) -> (r: Result<Option<Self::S>, LuceneError>)
        ensures
            r == self.exactly_scored(vector@),
            r matches Ok(Some(s)) ==> s.inv() && s.view().doc == -1,
    ;

    /// Returns what scores documents by the vectors as they were added, and by the given
    /// function.
    ///
    /// # Errors
    ///
    /// Whatever reading the vectors fails with.
    fn compared(&self, function: VectorSimilarityFunction, vector: &[u32]) -> (r: Result<
        Self::S,
        LuceneError,
    >)
        ensures
            r == self.scored_by(function, vector@),
            r matches Ok(s) ==> s.inv() && s.view().doc == -1,
    ;
}

/// Reads the vectors of fields.
pub trait VectorReader: LeafReader {
    /// The vectors of a field.
    type V: FloatVectorValues;

    /// What [`Self::get_float_vector_values`] returns.
    spec fn float_vectors(&self, field: Seq<char>) -> Result<Option<Self::V>, LuceneError>;

    /// What [`Self::check_float_field`] returns.
    spec fn checked(&self, field: Seq<char>) -> Result<(), LuceneError>;

    /// Returns the vectors of a field; `None` when there are none.
    ///
    /// # Errors
    ///
    /// Whatever reading the leaf fails with.
    fn get_float_vector_values(&self, field: &str) -> (r: Result<Option<Self::V>, LuceneError>)
        ensures
            r == self.float_vectors(field@),
    ;

    /// Reports a field that has vectors of another kind.
    ///
    /// # Errors
    ///
    /// That of a field with vectors of another kind.
    fn check_float_field(&self, field: &str) -> (r: Result<(), LuceneError>)
        ensures
            r == self.checked(field@),
    ;
}

} // verus!
