//! Numbers by document.

use vstd::prelude::*;
use vstd::string::*;

use crate::error::LuceneError;
use crate::search::doc_id_set_iterator::NO_MORE_DOCS;
use crate::search::double_values_source::DoubleValueDecoder;
use crate::search::field_comparator::Scorable;

verus! {

/// A double-precision number, in the form in which it is known.
#[derive(Debug, Clone, Copy, PartialEq, Eq, Structural)]
pub enum DoubleNumber {
    /// A score: an integer that is ordered like the single-precision number.
    Score(i32),
    /// An integer that is ordered like the number.
    Double(i64),
    /// The number that a decoder makes of an integer.
    Decoded(i64, DoubleValueDecoder),
}

/// The integer that is ordered like zero among double-precision numbers.
pub const ZERO: i64 = 0;

/// Knows the numbers of documents.
pub trait DoubleValues {
    /// The documents with numbers, and their numbers.
    spec fn numbers(&self) -> Map<int, DoubleNumber>;

    /// The document that was moved to; `None` before that.
    spec fn current(&self) -> Option<int>;

    /// The first document that can still be moved to.
    spec fn reachable_from(&self) -> int;

    /// The internal invariant of the implementation.
    spec fn inv(&self) -> bool;

    /// Whether reading never fails.
    spec fn infallible(&self) -> bool;

    /// Returns the number of the current document.
    ///
    /// # Errors
    ///
    /// Whatever reading the number fails with.
    fn double_value(&mut self) -> (r: Result<DoubleNumber, LuceneError>)
        requires
            old(self).inv(),
        ensures
            final(self).inv(),
            final(self).numbers() == old(self).numbers(),
            final(self).current() == old(self).current(),
            final(self).infallible() == old(self).infallible(),
            final(self).reachable_from() <= old(self).reachable_from(),
            old(self).current() matches Some(d) ==> old(self).numbers().contains_key(d) ==> {
                &&& old(self).infallible() ==> r is Ok
                &&& r matches Ok(v) ==> v == old(self).numbers()[d]
            },
    ;

    /// Moves to a document; returns whether it has a number. Documents are moved to in
    /// increasing order.
    ///
    /// # Errors
    ///
    /// Whatever moving to the document fails with.
    fn advance_exact(&mut self, doc: i32) -> (r: Result<bool, LuceneError>)
        requires
            old(self).inv(),
            old(self).reachable_from() <= doc < NO_MORE_DOCS,
        ensures
            old(self).infallible() ==> r is Ok,
            final(self).infallible() == old(self).infallible(),
            final(self).inv(),
            final(self).numbers() == old(self).numbers(),
            r matches Ok(b) ==> {
                &&& final(self).current() == Some(doc as int)
                &&& final(self).reachable_from() <= doc
                &&& b == old(self).numbers().contains_key(doc as int)
            },
    ;
}

/// The numbers where documents without a number have the given one.
pub open spec fn with_missing(
    numbers: Map<int, DoubleNumber>,
    missing: DoubleNumber,
) -> Map<int, DoubleNumber> {
    Map::new(
        |d: int| true,
        |d: int|
            if numbers.contains_key(d) {
                numbers[d]
            } else {
                missing
            },
    )
}

/// Gives every document a number: where there is none, the given one.
pub fn with_default<V: DoubleValues>(inner: V, missing_value: DoubleNumber) -> (r:
    WithDefaultDoubleValues<V>)
    requires
        inner.inv(),
    ensures
        r.inv(),
        r.numbers() == with_missing(inner.numbers(), missing_value),
        r.missing() == missing_value,
        r.current() is None,
        r.fresh(),
        r.infallible() == inner.infallible(),
        r.reachable_from() == inner.reachable_from(),
{
    WithDefaultDoubleValues { inner, missing_value, has_value: false, moved: Ghost(false) }
}

/// Numbers of which every document has one.
pub struct WithDefaultDoubleValues<V: DoubleValues> {
    inner: V,
    missing_value: DoubleNumber,
    has_value: bool,
    moved: Ghost<bool>,
}

impl<V: DoubleValues> WithDefaultDoubleValues<V> {
    /// The number of documents that have none of their own.
    pub closed spec fn missing(&self) -> DoubleNumber {
        self.missing_value
    }

    /// Whether no document was moved to.
    pub closed spec fn fresh(&self) -> bool {
        !self.moved@ && !self.has_value
    }
}

impl<V: DoubleValues> DoubleValues for WithDefaultDoubleValues<V> {
    closed spec fn numbers(&self) -> Map<int, DoubleNumber> {
        with_missing(self.inner.numbers(), self.missing_value)
    }

    closed spec fn current(&self) -> Option<int> {
        if self.moved@ {
            self.inner.current()
        } else {
            None
        }
    }

    closed spec fn reachable_from(&self) -> int {
        self.inner.reachable_from()
    }

    closed spec fn inv(&self) -> bool {
        &&& self.inner.inv()
        &&& self.moved@ ==> (self.inner.current() matches Some(d) && self.has_value
            == self.inner.numbers().contains_key(d))
    }

    closed spec fn infallible(&self) -> bool {
        self.inner.infallible()
    }

    fn double_value(&mut self) -> (r: Result<DoubleNumber, LuceneError>)
        ensures
            old(self).fresh() ==> r == Ok::<DoubleNumber, LuceneError>(old(self).missing()),
            final(self).missing() == old(self).missing(),
            final(self).fresh() == old(self).fresh(),
    {
        if self.has_value {
            self.inner.double_value()
        } else {
            Ok(self.missing_value)
        }
    }

    fn advance_exact(&mut self, doc: i32) -> (r: Result<bool, LuceneError>)
        ensures
            r matches Ok(b) ==> b && !final(self).fresh(),
            final(self).missing() == old(self).missing(),
    {
        self.moved = Ghost(false);
        self.has_value = self.inner.advance_exact(doc)?;
        self.moved = Ghost(true);
        Ok(true)
    }
}

/// Numbers that no document has.
#[derive(Debug, Clone, Copy)]
pub struct EmptyDoubleValues {
    doc: Option<i32>,
}

impl EmptyDoubleValues {
    /// Creates numbers that no document has.
    pub fn new() -> (r: Self)
        ensures
            r.inv(),
            r.current() is None,
    {
        EmptyDoubleValues { doc: None }
    }
}

impl Default for EmptyDoubleValues {
    fn default() -> (r: Self)
        ensures
            r.inv(),
            r.current() is None,
    {
        EmptyDoubleValues::new()
    }
}

impl DoubleValues for EmptyDoubleValues {
    open spec fn numbers(&self) -> Map<int, DoubleNumber> {
        Map::empty()
    }

    closed spec fn current(&self) -> Option<int> {
        match self.doc {
            Some(d) => Some(d as int),
            None => None,
        }
    }

    open spec fn reachable_from(&self) -> int {
        i32::MIN as int
    }

    open spec fn inv(&self) -> bool {
        true
    }

    open spec fn infallible(&self) -> bool {
        true
    }

    fn double_value(&mut self) -> (r: Result<DoubleNumber, LuceneError>)
        ensures
            r matches Err(e) && e.is_unsupported_operation("DoubleValues.EMPTY has no values"@),
    {
        Err(LuceneError::UnsupportedOperation("DoubleValues.EMPTY has no values".to_owned()))
    }

    fn advance_exact(&mut self, doc: i32) -> (r: Result<bool, LuceneError>) {
        self.doc = Some(doc);
        Ok(false)
    }
}

/// Numbers of which every document has the same one.
#[derive(Debug, Clone, Copy)]
pub struct ConstantDoubleValues {
    value: DoubleNumber,
    doc: Option<i32>,
}

impl ConstantDoubleValues {
    /// Creates numbers of which every document has the given one.
    pub fn new(value: DoubleNumber) -> (r: Self)
        ensures
            r.inv(),
            r.value() == value,
            r.current() is None,
    {
        ConstantDoubleValues { value, doc: None }
    }

    /// The number.
    pub closed spec fn value(&self) -> DoubleNumber {
        self.value
    }
}

impl DoubleValues for ConstantDoubleValues {
    open spec fn numbers(&self) -> Map<int, DoubleNumber> {
        with_missing(Map::empty(), self.value())
    }

    closed spec fn current(&self) -> Option<int> {
        match self.doc {
            Some(d) => Some(d as int),
            None => None,
        }
    }

    open spec fn reachable_from(&self) -> int {
        i32::MIN as int
    }

    open spec fn inv(&self) -> bool {
        true
    }

    open spec fn infallible(&self) -> bool {
        true
    }

    fn double_value(&mut self) -> (r: Result<DoubleNumber, LuceneError>)
        ensures
            r == Ok::<DoubleNumber, LuceneError>(old(self).value()),
            final(self).value() == old(self).value(),
    {
        Ok(self.value)
    }

    fn advance_exact(&mut self, doc: i32) -> (r: Result<bool, LuceneError>)
        ensures
            final(self).value() == old(self).value(),
    {
        self.doc = Some(doc);
        Ok(true)
    }
}

/// The score of the current document of a scorer.
pub struct ScorerDoubleValues<S: Scorable> {
    scorer: S,
    doc: Option<i32>,
}

impl<S: Scorable> ScorerDoubleValues<S> {
    /// The scorer.
    pub closed spec fn scorer(&self) -> S {
        self.scorer
    }

    /// Creates numbers that are the score of the current document of a scorer.
    pub fn new(scorer: S) -> (r: Self)
        ensures
            r.inv(),
            r.scorer() == scorer,
            r.current() is None,
    {
        ScorerDoubleValues { scorer, doc: None }
    }
}

impl<S: Scorable> DoubleValues for ScorerDoubleValues<S> {
    open spec fn numbers(&self) -> Map<int, DoubleNumber> {
        with_missing(Map::empty(), DoubleNumber::Score(self.scorer().current()))
    }

    closed spec fn current(&self) -> Option<int> {
        match self.doc {
            Some(d) => Some(d as int),
            None => None,
        }
    }

    open spec fn reachable_from(&self) -> int {
        i32::MIN as int
    }

    open spec fn inv(&self) -> bool {
        true
    }

    open spec fn infallible(&self) -> bool {
        self.scorer().infallible()
    }

    fn double_value(&mut self) -> (r: Result<DoubleNumber, LuceneError>)
        ensures
            r matches Ok(v) ==> v == DoubleNumber::Score(old(self).scorer().current()),
            final(self).scorer().current() == old(self).scorer().current(),
    {
        let score: i32 = self.scorer.score()?;
        Ok(DoubleNumber::Score(score))
    }

    fn advance_exact(&mut self, doc: i32) -> (r: Result<bool, LuceneError>)
        ensures
            r matches Ok(b) && b,
            final(self).scorer() == old(self).scorer(),
    {
        self.doc = Some(doc);
        Ok(true)
    }
}

/// Documents keep the numbers that they have, and the others get the given one.
pub proof fn defaults_fill_gaps(
    numbers: Map<int, DoubleNumber>,
    missing: DoubleNumber,
    doc: int,
)
    ensures
        with_missing(numbers, missing).contains_key(doc),
        numbers.contains_key(doc) ==> with_missing(numbers, missing)[doc] == numbers[doc],
        !numbers.contains_key(doc) ==> with_missing(numbers, missing)[doc] == missing,
{
}

} // verus!
