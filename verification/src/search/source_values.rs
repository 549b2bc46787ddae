//! The numbers of the documents of a leaf, from a field or from a query.

use vstd::prelude::*;

use crate::error::LuceneError;
use crate::search::doc_id_set_iterator::{is_first_from, DocIds, NO_MORE_DOCS};
use crate::search::double_values::{
    ConstantDoubleValues, DoubleNumber, DoubleValues, EmptyDoubleValues,
};
use crate::search::double_values_source::DoubleValueDecoder;
use crate::search::float_vector_similarity_values_source::VectorValues;
use crate::search::vectors::VectorScorer;

verus! {

/// The integers of a field in the documents of a leaf.
pub trait NumericDocValues {
    /// The documents with integers, and their integers.
    spec fn longs(&self) -> Map<int, i64>;

    /// The document that was moved to; `None` before that.
    spec fn value_doc(&self) -> Option<int>;

    /// The first document that can still be moved to.
    spec fn values_from(&self) -> int;

    /// The internal invariant of the implementation.
    spec fn values_ready(&self) -> bool;

    /// Whether reading never fails.
    spec fn values_infallible(&self) -> bool;

    /// Moves to a document; returns whether it has an integer.
    ///
    /// # Errors
    ///
    /// Whatever moving to the document fails with.
    fn advance_exact(&mut self, doc: i32) -> (r: Result<bool, LuceneError>)
        requires
            old(self).values_ready(),
            old(self).values_from() <= doc < NO_MORE_DOCS,
        ensures
            old(self).values_infallible() ==> r is Ok,
            final(self).values_infallible() == old(self).values_infallible(),
            final(self).values_ready(),
            final(self).longs() == old(self).longs(),
            r matches Ok(b) ==> {
                &&& final(self).value_doc() == Some(doc as int)
                &&& final(self).values_from() <= doc
                &&& b == old(self).longs().contains_key(doc as int)
            },
    ;

    /// Returns the integer of the current document.
    ///
    /// # Errors
    ///
    /// Whatever reading the integer fails with.
    fn long_value(&mut self) -> (r: Result<i64, LuceneError>)
        requires
            old(self).values_ready(),
        ensures
            final(self).values_ready(),
            final(self).longs() == old(self).longs(),
            final(self).value_doc() == old(self).value_doc(),
            final(self).values_from() <= old(self).values_from(),
            final(self).values_infallible() == old(self).values_infallible(),
            old(self).value_doc() matches Some(d) ==> old(self).longs().contains_key(d) ==> {
                &&& old(self).values_infallible() ==> r is Ok
                &&& r matches Ok(v) ==> v == old(self).longs()[d]
            },
    ;
}

/// The numbers of a field.
pub struct FieldDoubleValues<N: NumericDocValues> {
    /// The integers of the field.
    pub values: N,
    /// How they stand for numbers.
    pub decoder: DoubleValueDecoder,
}

impl<N: NumericDocValues> DoubleValues for FieldDoubleValues<N> {
    open spec fn numbers(&self) -> Map<int, DoubleNumber> {
        self.values.longs().map_values(|v: i64| DoubleNumber::Decoded(v, self.decoder))
    }

    open spec fn current(&self) -> Option<int> {
        self.values.value_doc()
    }

    open spec fn reachable_from(&self) -> int {
        self.values.values_from()
    }

    open spec fn inv(&self) -> bool {
        self.values.values_ready()
    }

    open spec fn infallible(&self) -> bool {
        self.values.values_infallible()
    }

    fn double_value(&mut self) -> (r: Result<DoubleNumber, LuceneError>)
        ensures
            final(self).decoder == old(self).decoder,
    {
        let raw: i64 = self.values.long_value()?;
        Ok(DoubleNumber::Decoded(raw, self.decoder))
    }

    fn advance_exact(&mut self, doc: i32) -> (r: Result<bool, LuceneError>)
        ensures
            final(self).decoder == old(self).decoder,
    {
        self.values.advance_exact(doc)
    }
}

/// Iterates over the matches of a query in a leaf, and scores them.
pub trait WeightScorer {
    /// The documents that may match, and the position among them.
    spec fn view(&self) -> DocIds;

    /// The matches, and their scores.
    spec fn scores(&self) -> Map<int, i32>;

    /// Whether matches need to be confirmed.
    spec fn two_phase(&self) -> bool;

    /// The internal invariant of the implementation.
    spec fn inv(&self) -> bool;

    /// Whether no step fails.
    spec fn infallible(&self) -> bool;

    /// Returns the current document.
    fn doc_id(&self) -> (r: i32)
        requires
            self.inv(),
        ensures
            r == self.view().doc,
            self.view().valid(),
            self.scores().dom().subset_of(self.view().docs),
            !self.two_phase() ==> self.scores().dom() == self.view().docs,
    ;

    /// Returns whether matches need to be confirmed.
    fn has_two_phase(&self) -> (r: bool)
        requires
            self.inv(),
        ensures
            r == self.two_phase(),
    ;

    /// Moves to the first document at or after `target` that may match.
    ///
    /// # Errors
    ///
    /// Whatever reading that document fails with.
    fn advance(&mut self, target: i32) -> (r: Result<i32, LuceneError>)
        requires
            old(self).inv(),
            old(self).view().doc < target,
        ensures
            old(self).infallible() ==> r is Ok,
            final(self).infallible() == old(self).infallible(),
            final(self).inv(),
            final(self).scores() == old(self).scores(),
            final(self).two_phase() == old(self).two_phase(),
            r matches Ok(d) ==> {
                &&& final(self).view() == old(self).view().at(d as int)
                &&& is_first_from(old(self).view().docs, target as int, d as int)
            },
    ;

    /// Decides whether the current document is a match.
    ///
    /// # Errors
    ///
    /// Whatever reading the document fails with.
    fn matches(&mut self) -> (r: Result<bool, LuceneError>)
        requires
            old(self).inv(),
            old(self).view().docs.contains(old(self).view().doc),
        ensures
            old(self).infallible() ==> r is Ok,
            final(self).infallible() == old(self).infallible(),
            final(self).inv(),
            final(self).view() == old(self).view(),
            final(self).scores() == old(self).scores(),
            final(self).two_phase() == old(self).two_phase(),
            r matches Ok(b) ==> b == old(self).scores().contains_key(old(self).view().doc),
    ;

    /// Returns the score of the current document.
    ///
    /// # Errors
    ///
    /// Whatever computing the score fails with.
    fn score(&mut self) -> (r: Result<i32, LuceneError>)
        requires
            old(self).inv(),
        ensures
            final(self).infallible() == old(self).infallible(),
            final(self).inv(),
            final(self).view() == old(self).view(),
            final(self).scores() == old(self).scores(),
            final(self).two_phase() == old(self).two_phase(),
            old(self).scores().contains_key(old(self).view().doc) ==> {
                &&& old(self).infallible() ==> r is Ok
                &&& r matches Ok(score) ==> score == old(self).scores()[old(self).view().doc]
            },
    ;
}

/// The scores of the matches of a query.
pub struct WeightDoubleValues<S: WeightScorer> {
    scorer: S,
    has_two_phase: bool,
    tpi_match: Option<bool>,
    doc: Option<i32>,
    sound: Ghost<bool>,
}

impl<S: WeightScorer> WeightDoubleValues<S> {
    /// What iterates over the matches.
    pub closed spec fn scorer(&self) -> S {
        self.scorer
    }

    /// Creates the scores of the matches that a scorer iterates over.
    pub fn new(scorer: S) -> (r: Self)
        requires
            scorer.inv(),
            scorer.view().doc == -1,
        ensures
            r.inv(),
            r.scorer() == scorer,
            r.current() is None,
            r.reachable_from() == 0,
    {
        let has_two_phase = scorer.has_two_phase();
        WeightDoubleValues { scorer, has_two_phase, tpi_match: None, doc: None, sound: Ghost(true) }
    }
}

impl<S: WeightScorer> DoubleValues for WeightDoubleValues<S> {
    open spec fn numbers(&self) -> Map<int, DoubleNumber> {
        self.scorer().scores().map_values(|score: i32| DoubleNumber::Score(score))
    }

    closed spec fn current(&self) -> Option<int> {
        match self.doc {
            Some(d) => Some(d as int),
            None => None,
        }
    }

    closed spec fn reachable_from(&self) -> int {
        if !self.sound@ {
            NO_MORE_DOCS as int
        } else {
            match self.doc {
                Some(d) => d as int,
                None => 0,
            }
        }
    }

    closed spec fn inv(&self) -> bool {
        &&& self.scorer.inv()
        &&& self.has_two_phase == self.scorer.two_phase()
        &&& !self.sound@ ==> self.doc is None
        &&& self.sound@ ==> {
            &&& match self.doc {
                Some(d) => 0 <= d && is_first_from(
                    self.scorer.view().docs,
                    d as int,
                    self.scorer.view().doc,
                ),
                None => self.scorer.view().doc == -1,
            }
            &&& self.tpi_match matches Some(b) ==> b == self.scorer.scores().contains_key(
                self.scorer.view().doc,
            )
        }
    }

    open spec fn infallible(&self) -> bool {
        self.scorer().infallible()
    }

    fn double_value(&mut self) -> (r: Result<DoubleNumber, LuceneError>) {
        let _position: i32 = self.scorer.doc_id();
        let score: i32 = self.scorer.score()?;
        Ok(DoubleNumber::Score(score))
    }

    fn advance_exact(&mut self, doc: i32) -> (r: Result<bool, LuceneError>) {
        let before: i32 = self.scorer.doc_id();
        self.sound = Ghost(false);
        self.doc = None;
        if before < doc {
            self.scorer.advance(doc)?;
            self.tpi_match = None;
        }
        let position: i32 = self.scorer.doc_id();
        if position == doc {
            assert(self.scorer.view().docs.contains(doc as int));
            if self.has_two_phase {
                let matched: bool = match self.tpi_match {
                    Some(matched) => matched,
                    None => self.scorer.matches()?,
                };
                self.tpi_match = Some(matched);
                self.doc = Some(doc);
                self.sound = Ghost(true);
                return Ok(matched);
            }
            self.doc = Some(doc);
            self.sound = Ghost(true);
            return Ok(true);
        }
        self.doc = Some(doc);
        self.sound = Ghost(true);
        Ok(false)
    }
}

/// The numbers that a source has in a leaf.
pub enum SourceValues<
    V: DoubleValues,
    N: NumericDocValues,
    S: WeightScorer,
    X: VectorScorer,
> {
    /// The scores of a search.
    Scores(V),
    /// The same number for every document.
    Constant(ConstantDoubleValues),
    /// The numbers of a field.
    Field(FieldDoubleValues<N>),
    /// The scores of the matches of a query.
    Weight(WeightDoubleValues<S>),
    /// How similar vectors are to a vector.
    Vectors(VectorValues<X>),
    /// No numbers.
    Empty(EmptyDoubleValues),
}

impl<
    V: DoubleValues,
    N: NumericDocValues,
    S: WeightScorer,
    X: VectorScorer,
> DoubleValues for SourceValues<V, N, S, X> {
    open spec fn numbers(&self) -> Map<int, DoubleNumber> {
        match *self {
            SourceValues::Scores(v) => v.numbers(),
            SourceValues::Constant(v) => v.numbers(),
            SourceValues::Field(v) => v.numbers(),
            SourceValues::Weight(v) => v.numbers(),
            SourceValues::Vectors(v) => v.numbers(),
            SourceValues::Empty(v) => v.numbers(),
        }
    }

    open spec fn current(&self) -> Option<int> {
        match *self {
            SourceValues::Scores(v) => v.current(),
            SourceValues::Constant(v) => v.current(),
            SourceValues::Field(v) => v.current(),
            SourceValues::Weight(v) => v.current(),
            SourceValues::Vectors(v) => v.current(),
            SourceValues::Empty(v) => v.current(),
        }
    }

    open spec fn reachable_from(&self) -> int {
        match *self {
            SourceValues::Scores(v) => v.reachable_from(),
            SourceValues::Constant(v) => v.reachable_from(),
            SourceValues::Field(v) => v.reachable_from(),
            SourceValues::Weight(v) => v.reachable_from(),
            SourceValues::Vectors(v) => v.reachable_from(),
            SourceValues::Empty(v) => v.reachable_from(),
        }
    }

    open spec fn inv(&self) -> bool {
        match *self {
            SourceValues::Scores(v) => v.inv(),
            SourceValues::Constant(v) => v.inv(),
            SourceValues::Field(v) => v.inv(),
            SourceValues::Weight(v) => v.inv(),
            SourceValues::Vectors(v) => v.inv(),
            SourceValues::Empty(v) => v.inv(),
        }
    }

    open spec fn infallible(&self) -> bool {
        match *self {
            SourceValues::Scores(v) => v.infallible(),
            SourceValues::Constant(v) => v.infallible(),
            SourceValues::Field(v) => v.infallible(),
            SourceValues::Weight(v) => v.infallible(),
            SourceValues::Vectors(v) => v.infallible(),
            SourceValues::Empty(v) => v.infallible(),
        }
    }

    fn double_value(&mut self) -> (r: Result<DoubleNumber, LuceneError>)
        ensures
            (*final(self) is Scores) == (*old(self) is Scores),
    {
        match self {
            SourceValues::Scores(v) => v.double_value(),
            SourceValues::Constant(v) => v.double_value(),
            SourceValues::Field(v) => v.double_value(),
            SourceValues::Weight(v) => v.double_value(),
            SourceValues::Vectors(v) => v.double_value(),
            SourceValues::Empty(v) => v.double_value(),
        }
    }

    fn advance_exact(&mut self, doc: i32) -> (r: Result<bool, LuceneError>)
        ensures
            (*final(self) is Scores) == (*old(self) is Scores),
    {
        match self {
            SourceValues::Scores(v) => v.advance_exact(doc),
            SourceValues::Constant(v) => v.advance_exact(doc),
            SourceValues::Field(v) => v.advance_exact(doc),
            SourceValues::Weight(v) => v.advance_exact(doc),
            SourceValues::Vectors(v) => v.advance_exact(doc),
            SourceValues::Empty(v) => v.advance_exact(doc),
        }
    }
}

} // verus!
