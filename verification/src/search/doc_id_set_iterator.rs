//! Iteration over sets of document identifiers.

use std::sync::Arc;

use vstd::prelude::*;
use vstd::string::*;

use crate::error::LuceneError;
use crate::util::bits::Bits;
use crate::util::fixed_bit_set::{count_set, FixedBitSet};
use crate::util::text::{
    append_signed, append_unsigned, decimal, decimal_int, with_number, with_two_numbers,
};

verus! {

/// The doc ID that an exhausted iterator is on.
pub const NO_MORE_DOCS: i32 = i32::MAX;

/// The abstract state of a [`DocIdSetIterator`].
#[verifier::ext_equal]
pub struct DocIds {
    /// Every document that the iterator matches, visited or not.
    pub docs: Set<int>,
    /// The current document: -1 before the first one, [`NO_MORE_DOCS`] after
    /// the last one.
    pub doc: int,
}

impl DocIds {
    /// The documents are below [`NO_MORE_DOCS`], and the current document is
    /// one of them unless iteration has not started or has ended.
    pub open spec fn valid(self) -> bool {
        &&& forall|d: int| #[trigger] self.docs.contains(d) ==> 0 <= d < NO_MORE_DOCS
        &&& self.doc == -1 || self.doc == NO_MORE_DOCS || self.docs.contains(self.doc)
    }

    /// The state after moving to `doc`.
    pub open spec fn at(self, doc: int) -> DocIds {
        DocIds { docs: self.docs, doc }
    }

    /// Where [`DocIdSetIterator::into_bit_set`] starts reading.
    pub open spec fn read_from(self) -> int {
        if self.doc == -1 {
            0
        } else {
            self.doc
        }
    }
}

/// `r` is the first element of `docs` at or after `target`, or
/// [`NO_MORE_DOCS`] when there is none.
pub open spec fn is_first_from(docs: Set<int>, target: int, r: int) -> bool {
    ||| {
        &&& docs.contains(r)
        &&& r >= target
        &&& forall|d: int| #[trigger] docs.contains(d) && d >= target ==> d >= r
    }
    ||| {
        &&& r == NO_MORE_DOCS
        &&& forall|d: int| #[trigger] docs.contains(d) ==> d < target
    }
}

/// The first document at or after a target is a doc ID, or [`NO_MORE_DOCS`].
pub proof fn first_from_in_range(ids: DocIds, target: int, r: int)
    requires
        ids.valid(),
        is_first_from(ids.docs, target, r),
    ensures
        0 <= r <= NO_MORE_DOCS,
        r < NO_MORE_DOCS <==> ids.docs.contains(r),
{
}

/// The first document at or after a target is unique.
pub proof fn first_from_unique(ids: DocIds, target: int, r1: int, r2: int)
    requires
        ids.valid(),
        is_first_from(ids.docs, target, r1),
        is_first_from(ids.docs, target, r2),
    ensures
        r1 == r2,
{
}

/// The bits of `before`, with the bit `d - offset` set for every document `d`
/// of `docs` in `[from, up_to)`.
pub open spec fn loaded_bits(
    before: Seq<bool>,
    docs: Set<int>,
    from: int,
    up_to: int,
    offset: int,
) -> Seq<bool> {
    Seq::new(
        before.len(),
        |i: int| before[i] || (docs.contains(i + offset) && from <= i + offset < up_to),
    )
}

/// An iterator over a set of document identifiers in increasing order.
pub trait DocIdSetIterator {
    /// The documents of this iterator and its position among them.
    spec fn view(&self) -> DocIds;

    /// The internal invariant of the implementation.
    spec fn inv(&self) -> bool;

    /// Whether no step of this iterator fails.
    spec fn infallible(&self) -> bool;

    /// The value that [`Self::cost`] reports.
    spec fn reported_cost(&self) -> i64;

    /// Returns the current doc ID: -1 before the first call of
    /// [`Self::next_doc`] or [`Self::advance`], [`NO_MORE_DOCS`] once the
    /// iterator is exhausted.
    fn doc_id(&self) -> (r: i32)
        requires
            self.inv(),
        ensures
            r == self.view().doc,
            self.view().valid(),
    ;

    /// Advances to the next document and returns it.
    ///
    /// # Errors
    ///
    /// Whatever reading the next document fails with.
    fn next_doc(&mut self) -> (r: Result<i32, LuceneError>)
        requires
            old(self).inv(),
            old(self).view().doc < NO_MORE_DOCS,
        ensures
            old(self).infallible() ==> r is Ok,
            final(self).infallible() == old(self).infallible(),
            r matches Ok(d) ==> {
                &&& final(self).inv()
                &&& final(self).view().valid()
                &&& final(self).view() == old(self).view().at(d as int)
                &&& final(self).reported_cost() == old(self).reported_cost()
                &&& is_first_from(old(self).view().docs, old(self).view().doc + 1, d as int)
            },
    ;

    /// Advances to the first document at or after `target` and returns it.
    ///
    /// # Errors
    ///
    /// Whatever reading that document fails with.
    fn advance(&mut self, target: i32) -> (r: Result<i32, LuceneError>)
        requires
            old(self).inv(),
            old(self).view().doc < target,
        ensures
            old(self).infallible() ==> r is Ok,
            final(self).infallible() == old(self).infallible(),
            r matches Ok(d) ==> {
                &&& final(self).inv()
                &&& final(self).view().valid()
                &&& final(self).view() == old(self).view().at(d as int)
                &&& final(self).reported_cost() == old(self).reported_cost()
                &&& is_first_from(old(self).view().docs, target as int, d as int)
            },
    ;

    /// Returns an estimate of the number of documents.
    fn cost(&self) -> (r: i64)
        requires
            self.inv(),
        ensures
            r == self.reported_cost(),
    ;

    /// Advances to the first document at or after `target` by stepping through
    /// the documents before it.
    ///
    /// # Errors
    ///
    /// The first error of [`Self::next_doc`].
    fn slow_advance(&mut self, target: i32) -> (r: Result<i32, LuceneError>)
        requires
            old(self).inv(),
            old(self).view().doc < target,
        ensures
            old(self).infallible() ==> r is Ok,
            final(self).infallible() == old(self).infallible(),
            r matches Ok(d) ==> {
                &&& final(self).inv()
                &&& final(self).view().valid()
                &&& final(self).view() == old(self).view().at(d as int)
                &&& final(self).reported_cost() == old(self).reported_cost()
                &&& is_first_from(old(self).view().docs, target as int, d as int)
            },
    {
        let mut doc: i32 = self.doc_id();
        while doc < target
            invariant
                old(self).view().valid(),
                self.inv(),
                self.infallible() == old(self).infallible(),
                self.reported_cost() == old(self).reported_cost(),
                self.view() == old(self).view().at(doc as int),
                doc >= old(self).view().doc,
                doc < target || is_first_from(
                    old(self).view().docs,
                    target as int,
                    doc as int,
                ),
            decreases NO_MORE_DOCS - doc,
        {
            doc = self.next_doc()?;
        }
        Ok(doc)
    }

    /// Loads the documents from the current one up to `up_to` (exclusive) into
    /// `bit_set`, shifted down by `offset`, and moves to the first document at
    /// or after `up_to`. An iterator that has not started is started first.
    ///
    /// # Errors
    ///
    /// The first error of [`Self::next_doc`].
    fn into_bit_set(&mut self, up_to: i32, bit_set: &mut FixedBitSet, offset: i32) -> (r: Result<
        (),
        LuceneError,
    >)
        requires
            old(self).inv(),
            forall|d: int| #[trigger]
                old(self).view().docs.contains(d) && old(self).view().read_from() <= d < up_to
                    ==> 0 <= d - offset < old(bit_set)@.len() && d - offset <= i32::MAX,
        ensures
            old(self).infallible() ==> r is Ok,
            final(self).infallible() == old(self).infallible(),
            final(bit_set)@.len() == old(bit_set)@.len(),
            r is Ok ==> {
                &&& final(self).inv()
                &&& final(self).view().valid()
                &&& final(self).view() == old(self).view().at(final(self).view().doc)
                &&& final(self).reported_cost() == old(self).reported_cost()
                &&& is_first_from(
                    old(self).view().docs,
                    (if up_to >= old(self).view().read_from() {
                        up_to as int
                    } else {
                        old(self).view().read_from()
                    }),
                    final(self).view().doc,
                )
                &&& final(bit_set)@ == loaded_bits(
                    old(bit_set)@,
                    old(self).view().docs,
                    old(self).view().read_from(),
                    up_to as int,
                    offset as int,
                )
            },
    {
        let ghost from = old(self).view().read_from();
        let ghost docs = old(self).view().docs;
        let mut doc: i32 = self.doc_id();
        if doc == -1 {
            doc = self.next_doc()?;
        }
        assert(bit_set@ =~= loaded_bits(
            old(bit_set)@,
            docs,
            from,
            doc as int,
            offset as int,
        ));
        while doc < up_to
            invariant
                from == old(self).view().read_from(),
                docs == old(self).view().docs,
                old(self).view().valid(),
                self.inv(),
                self.infallible() == old(self).infallible(),
                self.reported_cost() == old(self).reported_cost(),
                self.view() == old(self).view().at(doc as int),
                doc >= from,
                is_first_from(docs, doc as int, doc as int),
                doc < up_to || is_first_from(
                    docs,
                    (if up_to >= from {
                        up_to as int
                    } else {
                        from
                    }),
                    doc as int,
                ),
                forall|d: int| #[trigger]
                    docs.contains(d) && from <= d < up_to ==> 0 <= d - offset < bit_set@.len()
                        && d - offset <= i32::MAX,
                bit_set@.len() == old(bit_set)@.len(),
                bit_set@ == loaded_bits(
                    old(bit_set)@,
                    docs,
                    from,
                    (if doc <= up_to { doc as int } else { up_to as int }),
                    offset as int,
                ),
            decreases NO_MORE_DOCS - doc,
        {
            assert(docs.contains(doc as int));
            bit_set.set((doc - offset) as usize);
            doc = self.next_doc()?;
            assert(bit_set@ =~= loaded_bits(
                old(bit_set)@,
                docs,
                from,
                (if doc <= up_to { doc as int } else { up_to as int }),
                offset as int,
            ));
        }
        assert(bit_set@ =~= loaded_bits(
            old(bit_set)@,
            docs,
            from,
            up_to as int,
            offset as int,
        ));
        Ok(())
    }

    /// Returns the end (exclusive) of a run of consecutive matching documents
    /// that starts at the current one.
    ///
    /// # Errors
    ///
    /// Whatever reading the documents fails with.
    fn doc_id_run_end(&self) -> (r: Result<i32, LuceneError>)
        requires
            self.inv(),
            self.view().doc < NO_MORE_DOCS,
        ensures
            self.infallible() ==> r is Ok,
            r matches Ok(end) ==> {
                &&& end > self.view().doc
                &&& self.view().docs.contains(self.view().doc) ==> forall|d: int|
                    self.view().doc <= d < end ==> #[trigger] self.view().docs.contains(d)
            },
        default_ensures
            r matches Ok(end) && end == self.view().doc + 1,
    {
        Ok(self.doc_id() + 1)
    }
}

/// An iterator over the consecutive documents `[min_doc, max_doc)`.
#[derive(Debug)]
pub struct RangeDocIdSetIterator {
    min_doc: i32,
    max_doc: i32,
    doc: i32,
}

/// The documents `[min, max)`.
pub open spec fn doc_range(min: int, max: int) -> Set<int> {
    Set::new(|d: int| min <= d < max)
}

impl RangeDocIdSetIterator {
    /// The end (exclusive) of the range.
    pub closed spec fn max_doc(&self) -> int {
        self.max_doc as int
    }

    fn new(min_doc: i32, max_doc: i32) -> (r: Self)
        requires
            0 <= min_doc,
            min_doc < max_doc || min_doc == max_doc == 0,
        ensures
            r.inv(),
            r.infallible(),
            r.max_doc() == max_doc,
            r@ == (DocIds { docs: doc_range(min_doc as int, max_doc as int), doc: -1 }),
            r.reported_cost() == max_doc - min_doc,
    {
        RangeDocIdSetIterator { min_doc, max_doc, doc: -1 }
    }

    /// Creates an iterator over `[min_doc, max_doc)`.
    ///
    /// # Errors
    ///
    /// [`LuceneError::IllegalArgument`] when `min_doc >= max_doc` or
    /// `min_doc < 0`.
    pub fn range(min_doc: i32, max_doc: i32) -> (r: Result<Self, LuceneError>)
        ensures
            r is Ok <==> 0 <= min_doc < max_doc,
            r matches Ok(it) ==> {
                &&& it.inv()
                &&& it.infallible()
                &&& it.max_doc() == max_doc
                &&& it@ == (DocIds { docs: doc_range(min_doc as int, max_doc as int), doc: -1 })
                &&& it.reported_cost() == max_doc - min_doc
            },
            r matches Err(e) ==> e.is_illegal_argument(
                if min_doc >= max_doc {
                    "minDoc must be < maxDoc but got minDoc="@ + decimal_int(min_doc as int)
                        + " maxDoc="@ + decimal_int(max_doc as int)
                } else {
                    "minDoc must be >= 0 but got minDoc="@ + decimal_int(min_doc as int)
                },
            ),
    {
        if min_doc >= max_doc {
            return Err(
                LuceneError::IllegalArgument(
                    with_two_numbers(
                        "minDoc must be < maxDoc but got minDoc=",
                        min_doc as i64,
                        " maxDoc=",
                        max_doc as i64,
                    ),
                ),
            );
        }
        if min_doc < 0 {
            return Err(
                LuceneError::IllegalArgument(
                    with_number("minDoc must be >= 0 but got minDoc=", min_doc as i64),
                ),
            );
        }
        Ok(Self::new(min_doc, max_doc))
    }
}

impl DocIdSetIterator for RangeDocIdSetIterator {
    closed spec fn view(&self) -> DocIds {
        DocIds { docs: doc_range(self.min_doc as int, self.max_doc as int), doc: self.doc as int }
    }

    closed spec fn inv(&self) -> bool {
        &&& 0 <= self.min_doc
        &&& self.min_doc < self.max_doc || self.min_doc == self.max_doc == 0
        &&& self.doc == -1 || self.doc == NO_MORE_DOCS || self.min_doc <= self.doc < self.max_doc
    }

    open spec fn infallible(&self) -> bool {
        true
    }

    closed spec fn reported_cost(&self) -> i64 {
        (self.max_doc - self.min_doc) as i64
    }

    fn doc_id(&self) -> (r: i32) {
        self.doc
    }

    fn next_doc(&mut self) -> (r: Result<i32, LuceneError>)
        ensures
            final(self).max_doc() == old(self).max_doc(),
    {
        self.advance(self.doc + 1)
    }

    fn advance(&mut self, target: i32) -> (r: Result<i32, LuceneError>)
        ensures
            final(self).max_doc() == old(self).max_doc(),
    {
        if target >= self.max_doc {
            self.doc = NO_MORE_DOCS;
        } else if target < self.min_doc {
            self.doc = self.min_doc;
        } else {
            self.doc = target;
        }
        Ok(self.doc)
    }

    fn cost(&self) -> (r: i64) {
        (self.max_doc - self.min_doc) as i64
    }

    /// Returns the end of the range.
    fn doc_id_run_end(&self) -> (r: Result<i32, LuceneError>)
        ensures
            r matches Ok(end) && end == self.max_doc() && !self.view().docs.contains(end as int),
    {
        Ok(self.max_doc)
    }
}

impl DocIdSetIterator for Box<dyn DocIdSetIterator> {
    open spec fn view(&self) -> DocIds {
        (**self).view()
    }

    open spec fn inv(&self) -> bool {
        (**self).inv()
    }

    open spec fn infallible(&self) -> bool {
        (**self).infallible()
    }

    open spec fn reported_cost(&self) -> i64 {
        (**self).reported_cost()
    }

    fn doc_id(&self) -> (r: i32) {
        (**self).doc_id()
    }

    fn next_doc(&mut self) -> (r: Result<i32, LuceneError>) {
        (**self).next_doc()
    }

    fn advance(&mut self, target: i32) -> (r: Result<i32, LuceneError>) {
        (**self).advance(target)
    }

    fn cost(&self) -> (r: i64) {
        (**self).cost()
    }

    fn slow_advance(&mut self, target: i32) -> (r: Result<i32, LuceneError>) {
        (**self).slow_advance(target)
    }

    fn into_bit_set(&mut self, up_to: i32, bit_set: &mut FixedBitSet, offset: i32) -> (r: Result<
        (),
        LuceneError,
    >) {
        let ghost ids = (**self).view();
        assert(old(self).view() == ids);
        assert forall|d: int| #[trigger]
            (**self).view().docs.contains(d) && (**self).view().read_from() <= d < up_to implies 0
            <= d - offset < bit_set@.len() && d - offset <= i32::MAX by {
            assert(old(self).view().docs.contains(d));
        }
        (**self).into_bit_set(up_to, bit_set, offset)
    }

    /// Returns the end that the iterator in the box reports. What that iterator promises
    /// beyond the contract of the trait is not known here.
    fn doc_id_run_end(&self) -> (r: Result<i32, LuceneError>) {
        (**self).doc_id_run_end()
    }
}

/// An iterator over no document.
#[derive(Debug)]
pub struct EmptyDocIdSetIterator {
    range: RangeDocIdSetIterator,
}

impl EmptyDocIdSetIterator {
    /// Creates an empty iterator.
    pub fn new() -> (r: Self)
        ensures
            r.inv(),
            r@.docs == Set::<int>::empty(),
            r@.doc == -1,
            r.reported_cost() == 0,
    {
        let r = EmptyDocIdSetIterator { range: RangeDocIdSetIterator::new(0, 0) };
        assert(r@.docs =~= Set::<int>::empty());
        r
    }
}

impl Default for EmptyDocIdSetIterator {
    fn default() -> (r: Self)
        ensures
            r.inv(),
            r@.docs == Set::<int>::empty(),
            r@.doc == -1,
            r.reported_cost() == 0,
    {
        Self::new()
    }
}

impl DocIdSetIterator for EmptyDocIdSetIterator {
    closed spec fn view(&self) -> DocIds {
        self.range@
    }

    closed spec fn inv(&self) -> bool {
        self.range.inv() && self.range.max_doc() == 0
    }

    open spec fn infallible(&self) -> bool {
        true
    }

    closed spec fn reported_cost(&self) -> i64 {
        self.range.reported_cost()
    }

    fn doc_id(&self) -> (r: i32) {
        self.range.doc_id()
    }

    fn next_doc(&mut self) -> (r: Result<i32, LuceneError>) {
        self.range.next_doc()
    }

    fn advance(&mut self, target: i32) -> (r: Result<i32, LuceneError>) {
        self.range.advance(target)
    }

    fn cost(&self) -> (r: i64) {
        self.range.cost()
    }

    fn doc_id_run_end(&self) -> (r: Result<i32, LuceneError>)
        ensures
            r matches Ok(end) && end == 0,
    {
        self.range.doc_id_run_end()
    }
}

/// An iterator over all documents `[0, max_doc)`.
#[derive(Debug)]
pub struct AllDocIdSetIterator {
    range: RangeDocIdSetIterator,
}

impl AllDocIdSetIterator {
    /// The end (exclusive) of the documents.
    pub closed spec fn max_doc(&self) -> int {
        self.range.max_doc()
    }

    /// Creates an iterator over `[0, max_doc)`.
    ///
    /// # Errors
    ///
    /// [`LuceneError::IllegalArgument`] when `max_doc` is negative.
    pub fn new(max_doc: i32) -> (r: Result<Self, LuceneError>)
        ensures
            r is Ok <==> max_doc >= 0,
            r matches Ok(it) ==> {
                &&& it.inv()
                &&& it.max_doc() == max_doc
                &&& it@ == (DocIds { docs: doc_range(0, max_doc as int), doc: -1 })
                &&& it.reported_cost() == max_doc
            },
            r matches Err(e) ==> e.is_illegal_argument(
                "maxDoc must be >= 0, but got maxDoc="@ + decimal_int(max_doc as int),
            ),
    {
        if max_doc < 0 {
            return Err(
                LuceneError::IllegalArgument(
                    with_number("maxDoc must be >= 0, but got maxDoc=", max_doc as i64),
                ),
            );
        }
        Ok(AllDocIdSetIterator { range: RangeDocIdSetIterator::new(0, max_doc) })
    }
}

impl DocIdSetIterator for AllDocIdSetIterator {
    closed spec fn view(&self) -> DocIds {
        self.range@
    }

    closed spec fn inv(&self) -> bool {
        self.range.inv()
    }

    open spec fn infallible(&self) -> bool {
        true
    }

    closed spec fn reported_cost(&self) -> i64 {
        self.range.reported_cost()
    }

    fn doc_id(&self) -> (r: i32) {
        self.range.doc_id()
    }

    fn next_doc(&mut self) -> (r: Result<i32, LuceneError>)
        ensures
            final(self).max_doc() == old(self).max_doc(),
    {
        self.range.next_doc()
    }

    fn advance(&mut self, target: i32) -> (r: Result<i32, LuceneError>)
        ensures
            final(self).max_doc() == old(self).max_doc(),
    {
        self.range.advance(target)
    }

    fn cost(&self) -> (r: i64) {
        self.range.cost()
    }

    /// Returns the end of the documents.
    fn doc_id_run_end(&self) -> (r: Result<i32, LuceneError>)
        ensures
            r matches Ok(end) && end == self.max_doc() && !self.view().docs.contains(end as int),
    {
        self.range.doc_id_run_end()
    }
}

/// Returns an iterator over no document.
pub fn empty() -> (r: EmptyDocIdSetIterator)
    ensures
        r.inv(),
        r@.docs == Set::<int>::empty(),
        r@.doc == -1,
        r.reported_cost() == 0,
{
    EmptyDocIdSetIterator::new()
}

/// Returns an iterator over all documents `[0, max_doc)`.
///
/// # Errors
///
/// [`LuceneError::IllegalArgument`] when `max_doc` is negative.
pub fn all(max_doc: i32) -> (r: Result<AllDocIdSetIterator, LuceneError>)
    ensures
        r is Ok <==> max_doc >= 0,
        r matches Ok(it) ==> {
            &&& it.inv()
            &&& it.max_doc() == max_doc
            &&& it@ == (DocIds { docs: doc_range(0, max_doc as int), doc: -1 })
            &&& it.reported_cost() == max_doc
        },
        r matches Err(e) ==> e.is_illegal_argument(
            "maxDoc must be >= 0, but got maxDoc="@ + decimal_int(max_doc as int),
        ),
{
    AllDocIdSetIterator::new(max_doc)
}

/// Returns an iterator over the documents `[min_doc, max_doc)`.
///
/// # Errors
///
/// [`LuceneError::IllegalArgument`] when `min_doc >= max_doc` or
/// `min_doc < 0`.
pub fn range(min_doc: i32, max_doc: i32) -> (r: Result<RangeDocIdSetIterator, LuceneError>)
    ensures
        r is Ok <==> 0 <= min_doc < max_doc,
        r matches Ok(it) ==> {
            &&& it.inv()
            &&& it.max_doc() == max_doc
            &&& it@ == (DocIds { docs: doc_range(min_doc as int, max_doc as int), doc: -1 })
            &&& it.reported_cost() == max_doc - min_doc
        },
        r matches Err(e) ==> e.is_illegal_argument(
            if min_doc >= max_doc {
                "minDoc must be < maxDoc but got minDoc="@ + decimal_int(min_doc as int)
                    + " maxDoc="@ + decimal_int(max_doc as int)
            } else {
                "minDoc must be >= 0 but got minDoc="@ + decimal_int(min_doc as int)
            },
        ),
{
    RangeDocIdSetIterator::range(min_doc, max_doc)
}

/// The documents of `docs` whose bit is set.
pub open spec fn filter_docs(docs: Set<int>, bits: Seq<bool>) -> Set<int> {
    Set::new(|d: int| docs.contains(d) && bits[d])
}

/// An iterator over the documents of another one whose bit is set.
pub struct FilteredDocIdSetIterator<I: DocIdSetIterator, B: Bits> {
    inner: I,
    bits: Arc<B>,
}

impl<I: DocIdSetIterator, B: Bits> FilteredDocIdSetIterator<I, B> {
    fn new(inner: I, bits: Arc<B>) -> (r: Self)
        requires
            inner.inv(),
            inner.view().doc == -1,
            forall|d: int| #[trigger]
                inner.view().docs.contains(d) ==> d < bits.bit_seq().len(),
        ensures
            r.inv(),
            r.infallible() == inner.infallible(),
            r.view() == (DocIds {
                docs: filter_docs(inner.view().docs, bits.bit_seq()),
                doc: -1,
            }),
            r.reported_cost() == inner.reported_cost(),
    {
        FilteredDocIdSetIterator { inner, bits }
    }

    /// Steps over the documents whose bit is not set, from `first` on.
    fn do_next(&mut self, first: i32) -> (r: Result<i32, LuceneError>)
        requires
            old(self).inner.inv(),
            old(self).inner.view().doc == first,
            first >= 0,
            forall|d: int| #[trigger]
                old(self).inner.view().docs.contains(d) ==> d < old(self).bits.bit_seq().len(),
        ensures
            old(self).inner.infallible() ==> r is Ok,
            final(self).inner.infallible() == old(self).inner.infallible(),
            final(self).bits == old(self).bits,
            r matches Ok(d) ==> {
                &&& final(self).inner.inv()
                &&& final(self).inner.view() == old(self).inner.view().at(d as int)
                &&& final(self).inner.reported_cost() == old(self).inner.reported_cost()
                &&& is_first_from(
                    filter_docs(old(self).inner.view().docs, old(self).bits.bit_seq()),
                    first as int,
                    d as int,
                )
            },
    {
        let ghost docs = old(self).inner.view().docs;
        let ghost bits = old(self).bits.bit_seq();
        let mut doc: i32 = self.inner.doc_id();
        loop
            invariant
                docs == old(self).inner.view().docs,
                bits == old(self).bits.bit_seq(),
                old(self).inner.view().valid(),
                self.bits == old(self).bits,
                self.inner.inv(),
                self.inner.infallible() == old(self).inner.infallible(),
                self.inner.reported_cost() == old(self).inner.reported_cost(),
                self.inner.view() == old(self).inner.view().at(doc as int),
                0 <= first <= doc,
                doc == NO_MORE_DOCS || docs.contains(doc as int),
                forall|d: int| #[trigger] docs.contains(d) ==> d < bits.len(),
                forall|d: int| #[trigger]
                    docs.contains(d) && first <= d < doc ==> !bits[d],
            decreases NO_MORE_DOCS - doc,
        {
            if doc == NO_MORE_DOCS {
                assert(is_first_from(filter_docs(docs, bits), first as int, doc as int));
                return Ok(NO_MORE_DOCS);
            }
            if self.bits.get(doc as usize) {
                assert(filter_docs(docs, bits).contains(doc as int));
                return Ok(doc);
            }
            doc = self.inner.next_doc()?;
        }
    }
}

impl<I: DocIdSetIterator, B: Bits> DocIdSetIterator for FilteredDocIdSetIterator<I, B> {
    closed spec fn view(&self) -> DocIds {
        DocIds {
            docs: filter_docs(self.inner.view().docs, self.bits.bit_seq()),
            doc: self.inner.view().doc,
        }
    }

    closed spec fn inv(&self) -> bool {
        &&& self.inner.inv()
        &&& forall|d: int| #[trigger]
            self.inner.view().docs.contains(d) ==> d < self.bits.bit_seq().len()
        &&& 0 <= self.inner.view().doc < NO_MORE_DOCS
            ==> self.bits.bit_seq()[self.inner.view().doc]
    }

    closed spec fn infallible(&self) -> bool {
        self.inner.infallible()
    }

    closed spec fn reported_cost(&self) -> i64 {
        self.inner.reported_cost()
    }

    fn doc_id(&self) -> (r: i32) {
        self.inner.doc_id()
    }

    fn next_doc(&mut self) -> (r: Result<i32, LuceneError>) {
        let doc: i32 = self.inner.next_doc()?;
        proof {
            first_from_in_range(self.inner.view(), old(self).view().doc + 1, doc as int);
        }
        self.do_next(doc)
    }

    fn advance(&mut self, target: i32) -> (r: Result<i32, LuceneError>) {
        let doc: i32 = self.inner.advance(target)?;
        proof {
            first_from_in_range(self.inner.view(), target as int, doc as int);
        }
        self.do_next(doc)
    }

    fn cost(&self) -> (r: i64) {
        self.inner.cost()
    }
}

/// An iterator over the set bits of a bit set.
pub struct BitSetDocIdSetIterator {
    bits: FixedBitSet,
    doc: i32,
    cost: i64,
}

/// The positions of the set bits.
pub open spec fn set_positions(bits: Seq<bool>) -> Set<int> {
    Set::new(|d: int| 0 <= d < bits.len() && bits[d])
}

impl BitSetDocIdSetIterator {
    fn new(bits: FixedBitSet, cost: i64) -> (r: Self)
        requires
            bits@.len() <= NO_MORE_DOCS,
        ensures
            r.inv(),
            r@ == (DocIds { docs: set_positions(bits@), doc: -1 }),
            r.reported_cost() == cost,
    {
        BitSetDocIdSetIterator { bits, doc: -1, cost }
    }
}

impl DocIdSetIterator for BitSetDocIdSetIterator {
    closed spec fn view(&self) -> DocIds {
        DocIds { docs: set_positions(self.bits@), doc: self.doc as int }
    }

    closed spec fn inv(&self) -> bool {
        self.bits@.len() <= NO_MORE_DOCS && self.view().valid()
    }

    open spec fn infallible(&self) -> bool {
        true
    }

    closed spec fn reported_cost(&self) -> i64 {
        self.cost
    }

    fn doc_id(&self) -> (r: i32) {
        self.doc
    }

    fn next_doc(&mut self) -> (r: Result<i32, LuceneError>) {
        let next: Option<i32> = next_set_bit(&self.bits, self.doc + 1);
        self.doc = match next {
            Some(d) => d,
            None => NO_MORE_DOCS,
        };
        Ok(self.doc)
    }

    fn advance(&mut self, target: i32) -> (r: Result<i32, LuceneError>) {
        let next: Option<i32> = next_set_bit(&self.bits, target);
        self.doc = match next {
            Some(d) => d,
            None => NO_MORE_DOCS,
        };
        Ok(self.doc)
    }

    fn cost(&self) -> (r: i64) {
        self.cost
    }
}

/// Returns the first set bit at or after `from_index`, if any.
fn next_set_bit(bits: &FixedBitSet, from_index: i32) -> (r: Option<i32>)
    requires
        bits@.len() <= NO_MORE_DOCS,
    ensures
        r matches Some(d) ==> is_first_from(set_positions(bits@), from_index as int, d as int),
        r is None ==> is_first_from(
            set_positions(bits@),
            from_index as int,
            NO_MORE_DOCS as int,
        ),
        r matches Some(d) ==> set_positions(bits@).contains(d as int),
{
    let from: usize = if from_index < 0 {
        0
    } else {
        from_index as usize
    };
    match bits.next_set_bit(from) {
        Some(i) => Some(i as i32),
        None => None,
    }
}

/// Hands out iterators over one set of documents.
pub trait DocIdSetIteratorSupplier {
    /// The iterators that this supplier hands out.
    type Iter: DocIdSetIterator;

    /// Whether an iterator can be asked for.
    spec fn ready(&self) -> bool;

    /// The documents of every iterator handed out.
    spec fn docs(&self) -> Set<int>;

    /// Whether neither [`Self::get`] nor the iterators fail.
    spec fn infallible(&self) -> bool;

    /// Returns a new iterator, before its first document.
    ///
    /// # Errors
    ///
    /// Whatever creating the iterator fails with.
    fn get(&mut self) -> (r: Result<Self::Iter, LuceneError>)
        requires
            old(self).ready(),
        ensures
            final(self).ready(),
            final(self).docs() == old(self).docs(),
            final(self).infallible() == old(self).infallible(),
            old(self).infallible() ==> r is Ok,
            r matches Ok(it) ==> {
                &&& it.inv()
                &&& it.view() == (DocIds { docs: old(self).docs(), doc: -1 })
                &&& old(self).infallible() ==> it.infallible()
            },
    ;
}

/// Whether every iterator that `supplier` returns ranges over `docs`.
pub open spec fn supplies<I: DocIdSetIterator, F: Fn() -> Result<I, LuceneError>>(
    supplier: F,
    docs: Set<int>,
) -> bool {
    forall|r: Result<I, LuceneError>| #[trigger]
        call_ensures(supplier, (), r) ==> (r matches Ok(it) ==> it.inv() && it.view() == (DocIds {
            docs,
            doc: -1,
        }))
}

impl<I: DocIdSetIterator, F: Fn() -> Result<I, LuceneError>> DocIdSetIteratorSupplier for F {
    type Iter = I;

    open spec fn ready(&self) -> bool {
        call_requires(*self, ()) && exists|docs: Set<int>| supplies(*self, docs)
    }

    open spec fn docs(&self) -> Set<int> {
        choose|docs: Set<int>| supplies(*self, docs)
    }

    open spec fn infallible(&self) -> bool {
        forall|r: Result<I, LuceneError>| #[trigger]
            call_ensures(*self, (), r) ==> r is Ok && r->Ok_0.infallible()
    }

    fn get(&mut self) -> (r: Result<I, LuceneError>) {
        (*self)()
    }
}

/// The documents of one leaf that a search may return.
pub trait AcceptDocs {
    /// The random-access view.
    type BitsView: Bits;

    /// The sequential view.
    type Iter: DocIdSetIterator;

    /// The internal invariant of the implementation.
    spec fn inv(&self) -> bool;

    /// The documents that [`Self::iterator`] visits.
    spec fn accepted(&self) -> Set<int>;

    /// The end (exclusive) of the doc IDs of the leaf.
    spec fn max_doc(&self) -> int;

    /// Whether no operation fails.
    spec fn infallible(&self) -> bool;

    /// Random access to the accepted documents, or `None` if all documents are
    /// accepted.
    ///
    /// # Errors
    ///
    /// Whatever reading the documents fails with.
    fn bits(&mut self) -> (r: Result<Option<&Self::BitsView>, LuceneError>)
        requires
            old(self).inv(),
        ensures
            old(self).infallible() ==> r is Ok,
            final(self).infallible() == old(self).infallible(),
            final(self).max_doc() == old(self).max_doc(),
            r is Ok ==> final(self).inv(),
            r matches Ok(Some(b)) ==> old(self).max_doc() >= 0 ==> b.bit_seq() == Seq::new(
                old(self).max_doc() as nat,
                |d: int| old(self).accepted().contains(d),
            ),
            r matches Ok(None) ==> old(self).accepted() == doc_range(0, old(self).max_doc()),
    ;

    /// Sequential access to the accepted documents.
    ///
    /// # Errors
    ///
    /// Whatever creating the iterator fails with.
    fn iterator(&mut self) -> (r: Result<Self::Iter, LuceneError>)
        requires
            old(self).inv(),
        ensures
            old(self).infallible() ==> r is Ok,
            final(self).infallible() == old(self).infallible(),
            final(self).max_doc() == old(self).max_doc(),
            final(self).inv(),
            final(self).accepted() == old(self).accepted(),
            r matches Ok(it) ==> {
                &&& it.inv()
                &&& it.view() == (DocIds { docs: old(self).accepted(), doc: -1 })
                &&& old(self).infallible() ==> it.infallible()
            },
    ;

    /// An estimate of the number of accepted documents.
    ///
    /// # Errors
    ///
    /// Whatever reading the documents fails with.
    fn cost(&mut self) -> (r: Result<i64, LuceneError>)
        requires
            old(self).inv(),
        ensures
            old(self).infallible() ==> r is Ok,
            final(self).infallible() == old(self).infallible(),
            final(self).max_doc() == old(self).max_doc(),
            r is Ok ==> final(self).inv(),
    ;
}

/// Whether `bits` has one bit per document.
spec fn length_matches(bits: Option<Box<dyn Bits>>, max_doc: i32) -> bool {
    bits matches Some(b) ==> b.bit_seq().len() == max_doc as usize
}

/// Reports bits whose number differs from the number of documents.
fn check_length(bits: &Option<Box<dyn Bits>>, max_doc: i32) -> (r: Result<(), LuceneError>)
    ensures
        r is Ok <==> length_matches(*bits, max_doc),
        r matches Err(e) ==> e.is_illegal_argument(
            "Bits length = "@ + decimal(bits->Some_0.bit_seq().len()) + " != maxDoc = "@
                + decimal_int(max_doc as int),
        ),
{
    if let Some(b) = bits {
        let length: usize = b.length();
        if length != max_doc as usize {
            let mut message = "Bits length = ".to_owned();
            append_unsigned(&mut message, length as u64);
            message.append(" != maxDoc = ");
            append_signed(&mut message, max_doc as i64);
            return Err(LuceneError::IllegalArgument(message));
        }
    }
    Ok(())
}

/// Accepted documents given by the live documents of a leaf.
pub struct BitsAcceptDocs {
    bits: Option<Arc<Box<dyn Bits>>>,
    max_doc: i32,
}

/// The iterator of a [`BitsAcceptDocs`].
pub enum BitsAcceptDocsIterator {
    /// Every document is accepted.
    All(AllDocIdSetIterator),
    /// The documents whose bit is set are accepted.
    Filtered(FilteredDocIdSetIterator<AllDocIdSetIterator, Box<dyn Bits>>),
}

impl BitsAcceptDocsIterator {
    /// The end (exclusive) of the documents, when every document is accepted.
    pub open spec fn all_end(&self) -> Option<int> {
        match self {
            BitsAcceptDocsIterator::All(it) => Some(it.max_doc()),
            BitsAcceptDocsIterator::Filtered(_) => None,
        }
    }
}

impl DocIdSetIterator for BitsAcceptDocsIterator {
    open spec fn view(&self) -> DocIds {
        match self {
            BitsAcceptDocsIterator::All(it) => it.view(),
            BitsAcceptDocsIterator::Filtered(it) => it.view(),
        }
    }

    open spec fn inv(&self) -> bool {
        match self {
            BitsAcceptDocsIterator::All(it) => it.inv(),
            BitsAcceptDocsIterator::Filtered(it) => it.inv(),
        }
    }

    open spec fn infallible(&self) -> bool {
        match self {
            BitsAcceptDocsIterator::All(it) => it.infallible(),
            BitsAcceptDocsIterator::Filtered(it) => it.infallible(),
        }
    }

    open spec fn reported_cost(&self) -> i64 {
        match self {
            BitsAcceptDocsIterator::All(it) => it.reported_cost(),
            BitsAcceptDocsIterator::Filtered(it) => it.reported_cost(),
        }
    }

    fn doc_id(&self) -> (r: i32) {
        match self {
            BitsAcceptDocsIterator::All(it) => it.doc_id(),
            BitsAcceptDocsIterator::Filtered(it) => it.doc_id(),
        }
    }

    fn next_doc(&mut self) -> (r: Result<i32, LuceneError>)
        ensures
            final(self).all_end() == old(self).all_end(),
    {
        match self {
            BitsAcceptDocsIterator::All(it) => it.next_doc(),
            BitsAcceptDocsIterator::Filtered(it) => it.next_doc(),
        }
    }

    fn advance(&mut self, target: i32) -> (r: Result<i32, LuceneError>)
        ensures
            final(self).all_end() == old(self).all_end(),
    {
        match self {
            BitsAcceptDocsIterator::All(it) => it.advance(target),
            BitsAcceptDocsIterator::Filtered(it) => it.advance(target),
        }
    }

    fn cost(&self) -> (r: i64) {
        match self {
            BitsAcceptDocsIterator::All(it) => it.cost(),
            BitsAcceptDocsIterator::Filtered(it) => it.cost(),
        }
    }

    /// Returns the end of the documents when every document is accepted, and the
    /// document after the current one otherwise.
    fn doc_id_run_end(&self) -> (r: Result<i32, LuceneError>)
        ensures
            r matches Ok(end) && end == match self.all_end() {
                Some(max_doc) => max_doc,
                None => self.view().doc + 1,
            },
    {
        match self {
            BitsAcceptDocsIterator::All(it) => it.doc_id_run_end(),
            BitsAcceptDocsIterator::Filtered(it) => it.doc_id_run_end(),
        }
    }
}

impl BitsAcceptDocs {
    /// The bits of the live documents; `None` when all are live.
    pub closed spec fn live_bits(&self) -> Option<Seq<bool>> {
        match self.bits {
            Some(b) => Some(b.bit_seq()),
            None => None,
        }
    }

    /// Accepts the documents of `[0, max_doc)` whose bit is set, or all of
    /// them without bits.
    ///
    /// # Errors
    ///
    /// [`LuceneError::IllegalArgument`] when the number of bits is not
    /// `max_doc`.
    pub fn from_live_docs(bits: Option<Box<dyn Bits>>, max_doc: i32) -> (r: Result<
        Self,
        LuceneError,
    >)
        ensures
            r is Ok <==> (bits matches Some(b) ==> b.bit_seq().len() == max_doc as usize),
            r matches Ok(a) ==> {
                &&& a.inv()
                &&& a.max_doc() == max_doc
                &&& a.live_bits() == (match bits {
                    Some(b) => Some(b.bit_seq()),
                    None => None,
                })
            },
            r matches Err(e) ==> e.is_illegal_argument(
                "Bits length = "@ + decimal(bits->Some_0.bit_seq().len()) + " != maxDoc = "@
                    + decimal_int(max_doc as int),
            ),
    {
        check_length(&bits, max_doc)?;
        let bits = match bits {
            Some(b) => Some(Arc::new(b)),
            None => None,
        };
        Ok(BitsAcceptDocs { bits, max_doc })
    }
}

impl AcceptDocs for BitsAcceptDocs {
    type BitsView = Box<dyn Bits>;

    type Iter = BitsAcceptDocsIterator;

    closed spec fn inv(&self) -> bool {
        self.bits matches Some(b) ==> b.bit_seq().len() == self.max_doc as usize
    }

    open spec fn accepted(&self) -> Set<int> {
        match self.live_bits() {
            Some(bits) => filter_docs(doc_range(0, self.max_doc()), bits),
            None => doc_range(0, self.max_doc()),
        }
    }

    closed spec fn max_doc(&self) -> int {
        self.max_doc as int
    }

    open spec fn infallible(&self) -> bool {
        self.max_doc() >= 0
    }

    fn bits(&mut self) -> (r: Result<Option<&Box<dyn Bits>>, LuceneError>)
        ensures
            r matches Ok(b) && (b is Some <==> old(self).live_bits() is Some),
            *final(self) == *old(self),
    {
        match &self.bits {
            Some(b) => {
                assert(self.max_doc >= 0 ==> b.bit_seq() =~= Seq::new(
                    self.max_doc as nat,
                    |d: int| self.accepted().contains(d),
                ));
                Ok(Some(&**b))
            },
            None => Ok(None),
        }
    }

    fn iterator(&mut self) -> (r: Result<BitsAcceptDocsIterator, LuceneError>)
        ensures
            *final(self) == *old(self),
            r is Ok <==> old(self).max_doc() >= 0,
            r matches Ok(it) ==> it.infallible() && it.reported_cost() == old(self).max_doc(),
            r matches Ok(it) ==> it.all_end() == match old(self).live_bits() {
                Some(_) => None,
                None => Some(old(self).max_doc()),
            },
            r matches Err(e) ==> e.is_illegal_argument(
                "maxDoc must be >= 0, but got maxDoc="@ + decimal_int(old(self).max_doc()),
            ),
    {
        let base = AllDocIdSetIterator::new(self.max_doc)?;
        match &self.bits {
            None => Ok(BitsAcceptDocsIterator::All(base)),
            Some(bits) => {
                Ok(
                    BitsAcceptDocsIterator::Filtered(
                        FilteredDocIdSetIterator::new(base, Arc::clone(bits)),
                    ),
                )
            },
        }
    }

    fn cost(&mut self) -> (r: Result<i64, LuceneError>)
        ensures
            *final(self) == *old(self),
            r matches Ok(c) && c == old(self).max_doc(),
    {
        Ok(self.max_doc as i64)
    }
}

/// Accepted documents given by an iterator, optionally restricted to the live
/// documents of a leaf.
pub struct IteratorAcceptDocs<S: DocIdSetIteratorSupplier> {
    supplier: S,
    live_docs: Option<Arc<Box<dyn Bits>>>,
    max_doc: i32,
    cached_bits: Option<FixedBitSet>,
}

/// The iterator of an [`IteratorAcceptDocs`].
pub enum IteratorAcceptDocsIterator<I: DocIdSetIterator> {
    /// The documents of the supplier.
    Plain(I),
    /// The live documents of the supplier.
    Filtered(FilteredDocIdSetIterator<I, Box<dyn Bits>>),
    /// The cached documents.
    Cached(BitSetDocIdSetIterator),
}

impl<I: DocIdSetIterator> DocIdSetIterator for IteratorAcceptDocsIterator<I> {
    open spec fn view(&self) -> DocIds {
        match self {
            IteratorAcceptDocsIterator::Plain(it) => it.view(),
            IteratorAcceptDocsIterator::Filtered(it) => it.view(),
            IteratorAcceptDocsIterator::Cached(it) => it.view(),
        }
    }

    open spec fn inv(&self) -> bool {
        match self {
            IteratorAcceptDocsIterator::Plain(it) => it.inv(),
            IteratorAcceptDocsIterator::Filtered(it) => it.inv(),
            IteratorAcceptDocsIterator::Cached(it) => it.inv(),
        }
    }

    open spec fn infallible(&self) -> bool {
        match self {
            IteratorAcceptDocsIterator::Plain(it) => it.infallible(),
            IteratorAcceptDocsIterator::Filtered(it) => it.infallible(),
            IteratorAcceptDocsIterator::Cached(it) => it.infallible(),
        }
    }

    open spec fn reported_cost(&self) -> i64 {
        match self {
            IteratorAcceptDocsIterator::Plain(it) => it.reported_cost(),
            IteratorAcceptDocsIterator::Filtered(it) => it.reported_cost(),
            IteratorAcceptDocsIterator::Cached(it) => it.reported_cost(),
        }
    }

    fn doc_id(&self) -> (r: i32) {
        match self {
            IteratorAcceptDocsIterator::Plain(it) => it.doc_id(),
            IteratorAcceptDocsIterator::Filtered(it) => it.doc_id(),
            IteratorAcceptDocsIterator::Cached(it) => it.doc_id(),
        }
    }

    fn next_doc(&mut self) -> (r: Result<i32, LuceneError>)
        ensures
            *final(self) is Plain == *old(self) is Plain,
    {
        match self {
            IteratorAcceptDocsIterator::Plain(it) => it.next_doc(),
            IteratorAcceptDocsIterator::Filtered(it) => it.next_doc(),
            IteratorAcceptDocsIterator::Cached(it) => it.next_doc(),
        }
    }

    fn advance(&mut self, target: i32) -> (r: Result<i32, LuceneError>)
        ensures
            *final(self) is Plain == *old(self) is Plain,
    {
        match self {
            IteratorAcceptDocsIterator::Plain(it) => it.advance(target),
            IteratorAcceptDocsIterator::Filtered(it) => it.advance(target),
            IteratorAcceptDocsIterator::Cached(it) => it.advance(target),
        }
    }

    fn cost(&self) -> (r: i64) {
        match self {
            IteratorAcceptDocsIterator::Plain(it) => it.cost(),
            IteratorAcceptDocsIterator::Filtered(it) => it.cost(),
            IteratorAcceptDocsIterator::Cached(it) => it.cost(),
        }
    }

    /// Returns the end that the iterator of the supplier reports, where its documents
    /// are neither filtered nor cached, and the document after the current one
    /// otherwise.
    fn doc_id_run_end(&self) -> (r: Result<i32, LuceneError>)
        ensures
            match self {
                IteratorAcceptDocsIterator::Plain(it) => call_ensures(
                    I::doc_id_run_end,
                    (it,),
                    r,
                ),
                _ => r matches Ok(end) && end == self.view().doc + 1,
            },
    {
        match self {
            IteratorAcceptDocsIterator::Plain(it) => it.doc_id_run_end(),
            IteratorAcceptDocsIterator::Filtered(it) => it.doc_id_run_end(),
            IteratorAcceptDocsIterator::Cached(it) => it.doc_id_run_end(),
        }
    }
}

impl<S: DocIdSetIteratorSupplier> IteratorAcceptDocs<S> {
    /// The documents of the supplier that are live.
    pub closed spec fn live_docs_of_supplier(&self) -> Set<int> {
        match self.live_docs {
            Some(bits) => filter_docs(self.supplier.docs(), bits.bit_seq()),
            None => self.supplier.docs(),
        }
    }

    /// Whether the documents of the supplier are restricted to the live ones.
    pub closed spec fn is_restricted(&self) -> bool {
        self.live_docs is Some
    }

    /// Whether the documents have been read into a bit set.
    pub closed spec fn is_cached(&self) -> bool {
        self.cached_bits is Some
    }

    /// The accepted documents as bits.
    pub open spec fn accepted_bits(&self) -> Seq<bool> {
        Seq::new(self.max_doc() as nat, |d: int| self.live_docs_of_supplier().contains(d))
    }

    /// Accepts the documents that `supplier` hands out, restricted to those
    /// whose bit in `live_docs` is set when there are such bits.
    ///
    /// # Errors
    ///
    /// [`LuceneError::IllegalArgument`] when the number of bits is not
    /// `max_doc`.
    pub fn from_iterator_supplier(
        supplier: S,
        live_docs: Option<Box<dyn Bits>>,
        max_doc: i32,
    ) -> (r: Result<Self, LuceneError>)
        ensures
            r is Ok <==> (live_docs matches Some(b) ==> b.bit_seq().len() == max_doc as usize),
            r matches Ok(a) ==> {
                &&& !a.is_cached()
                &&& a.is_restricted() == live_docs is Some
                &&& a.max_doc() == max_doc
                &&& a.infallible() == supplier.infallible()
                &&& a.live_docs_of_supplier() == (match live_docs {
                    Some(b) => filter_docs(supplier.docs(), b.bit_seq()),
                    None => supplier.docs(),
                })
                &&& a.inv() <==> {
                    &&& supplier.ready()
                    &&& max_doc >= 0
                    &&& live_docs is Some ==> forall|d: int| #[trigger]
                        supplier.docs().contains(d) ==> d < max_doc
                }
            },
            r matches Err(e) ==> e.is_illegal_argument(
                "Bits length = "@ + decimal(live_docs->Some_0.bit_seq().len()) + " != maxDoc = "@
                    + decimal_int(max_doc as int),
            ),
    {
        check_length(&live_docs, max_doc)?;
        let live_docs = match live_docs {
            Some(b) => Some(Arc::new(b)),
            None => None,
        };
        Ok(IteratorAcceptDocs { supplier, live_docs, max_doc, cached_bits: None })
    }

    fn filtered_iterator(&mut self) -> (r: Result<
        IteratorAcceptDocsIterator<S::Iter>,
        LuceneError,
    >)
        requires
            old(self).inv(),
        ensures
            final(self).inv(),
            final(self).live_docs_of_supplier() == old(self).live_docs_of_supplier(),
            final(self).infallible() == old(self).infallible(),
            final(self).max_doc == old(self).max_doc,
            final(self).cached_bits == old(self).cached_bits,
            final(self).live_docs == old(self).live_docs,
            old(self).infallible() ==> r is Ok,
            r matches Ok(it) ==> {
                &&& it is Plain <==> !old(self).is_restricted()
                &&& it.inv()
                &&& it.view() == (DocIds { docs: old(self).live_docs_of_supplier(), doc: -1 })
                &&& old(self).infallible() ==> it.infallible()
            },
    {
        let base = self.supplier.get()?;
        match &self.live_docs {
            None => Ok(IteratorAcceptDocsIterator::Plain(base)),
            Some(bits) => {
                Ok(
                    IteratorAcceptDocsIterator::Filtered(
                        FilteredDocIdSetIterator::new(base, Arc::clone(bits)),
                    ),
                )
            },
        }
    }

    fn ensure_cached_bits(&mut self) -> (r: Result<(), LuceneError>)
        requires
            old(self).inv(),
        ensures
            old(self).infallible() ==> r is Ok,
            final(self).live_docs_of_supplier() == old(self).live_docs_of_supplier(),
            final(self).infallible() == old(self).infallible(),
            final(self).max_doc == old(self).max_doc,
            final(self).live_docs == old(self).live_docs,
            final(self).inv(),
            r is Ok ==> final(self).is_cached(),
    {
        if self.cached_bits.is_none() {
            let mut bit_set = FixedBitSet::new(self.max_doc as usize);
            let mut iter = self.filtered_iterator()?;
            iter.into_bit_set(self.max_doc, &mut bit_set, 0)?;
            assert(bit_set@ =~= self.accepted_bits());
            self.cached_bits = Some(bit_set);
        }
        Ok(())
    }
}

impl<S: DocIdSetIteratorSupplier> AcceptDocs for IteratorAcceptDocs<S> {
    type BitsView = FixedBitSet;

    type Iter = IteratorAcceptDocsIterator<S::Iter>;

    closed spec fn inv(&self) -> bool {
        &&& self.supplier.ready()
        &&& self.max_doc >= 0
        &&& self.live_docs matches Some(bits) ==> {
            &&& bits.bit_seq().len() == self.max_doc
            &&& forall|d: int| #[trigger] self.supplier.docs().contains(d) ==> d < self.max_doc
        }
        &&& self.cached_bits matches Some(bits) ==> bits@ == self.accepted_bits()
    }

    open spec fn accepted(&self) -> Set<int> {
        if self.is_cached() {
            set_positions(self.accepted_bits())
        } else {
            self.live_docs_of_supplier()
        }
    }

    closed spec fn max_doc(&self) -> int {
        self.max_doc as int
    }

    closed spec fn infallible(&self) -> bool {
        self.supplier.infallible()
    }

    fn bits(&mut self) -> (r: Result<Option<&FixedBitSet>, LuceneError>)
        ensures
            r matches Ok(b) ==> b is Some,
            r is Ok ==> final(self).is_cached(),
            final(self).is_restricted() == old(self).is_restricted(),
            final(self).live_docs_of_supplier() == old(self).live_docs_of_supplier(),
    {
        self.ensure_cached_bits()?;
        match &self.cached_bits {
            Some(b) => {
                assert(b@ =~= Seq::new(
                    old(self).max_doc() as nat,
                    |d: int| old(self).accepted().contains(d),
                ));
                Ok(Some(b))
            },
            None => Ok(None),
        }
    }

    fn iterator(&mut self) -> (r: Result<IteratorAcceptDocsIterator<S::Iter>, LuceneError>)
        ensures
            final(self).live_docs_of_supplier() == old(self).live_docs_of_supplier(),
            final(self).is_cached() == old(self).is_cached(),
            final(self).is_restricted() == old(self).is_restricted(),
            r matches Ok(it) ==> (it is Plain <==> !old(self).is_cached() && !old(
                self,
            ).is_restricted()),
            old(self).is_cached() ==> r is Ok,
            r matches Ok(it) ==> old(self).is_cached() ==> it.reported_cost() == count_set(
                old(self).accepted_bits(),
                old(self).max_doc(),
            ),
    {
        if let Some(bits) = &self.cached_bits {
            let cardinality: usize = bits.cardinality();
            return Ok(
                IteratorAcceptDocsIterator::Cached(
                    BitSetDocIdSetIterator::new(bits.clone(), cardinality as i64),
                ),
            );
        }
        self.filtered_iterator()
    }

    fn cost(&mut self) -> (r: Result<i64, LuceneError>)
        ensures
            final(self).live_docs_of_supplier() == old(self).live_docs_of_supplier(),
            final(self).is_restricted() == old(self).is_restricted(),
            r matches Ok(c) ==> final(self).is_cached() && c == count_set(
                old(self).accepted_bits(),
                old(self).max_doc(),
            ),
    {
        self.ensure_cached_bits()?;
        match &self.cached_bits {
            Some(bits) => Ok(bits.cardinality() as i64),
            None => Ok(0),
        }
    }
}

/// Accepts the documents of `[0, max_doc)` whose bit is set, or all of them
/// without bits.
///
/// # Errors
///
/// [`LuceneError::IllegalArgument`] when the number of bits is not `max_doc`.
pub fn from_live_docs(bits: Option<Box<dyn Bits>>, max_doc: i32) -> (r: Result<
    BitsAcceptDocs,
    LuceneError,
>)
    ensures
        r is Ok <==> (bits matches Some(b) ==> b.bit_seq().len() == max_doc as usize),
        r matches Ok(a) ==> {
            &&& a.inv()
            &&& a.max_doc() == max_doc
            &&& a.live_bits() == (match bits {
                Some(b) => Some(b.bit_seq()),
                None => None,
            })
        },
        r matches Err(e) ==> e.is_illegal_argument(
            "Bits length = "@ + decimal(bits->Some_0.bit_seq().len()) + " != maxDoc = "@
                + decimal_int(max_doc as int),
        ),
{
    BitsAcceptDocs::from_live_docs(bits, max_doc)
}

/// Accepts the documents that `supplier` hands out, restricted to those whose
/// bit in `live_docs` is set when there are such bits.
///
/// # Errors
///
/// [`LuceneError::IllegalArgument`] when the number of bits is not `max_doc`.
pub fn from_iterator_supplier<S: DocIdSetIteratorSupplier>(
    supplier: S,
    live_docs: Option<Box<dyn Bits>>,
    max_doc: i32,
) -> (r: Result<IteratorAcceptDocs<S>, LuceneError>)
    ensures
        r is Ok <==> (live_docs matches Some(b) ==> b.bit_seq().len() == max_doc as usize),
        r matches Ok(a) ==> {
            &&& !a.is_cached()
            &&& a.is_restricted() == live_docs is Some
            &&& a.max_doc() == max_doc
            &&& a.infallible() == supplier.infallible()
            &&& a.live_docs_of_supplier() == (match live_docs {
                Some(b) => filter_docs(supplier.docs(), b.bit_seq()),
                None => supplier.docs(),
            })
            &&& a.inv() <==> {
                &&& supplier.ready()
                &&& max_doc >= 0
                &&& live_docs is Some ==> forall|d: int| #[trigger]
                    supplier.docs().contains(d) ==> d < max_doc
            }
        },
        r matches Err(e) ==> e.is_illegal_argument(
            "Bits length = "@ + decimal(live_docs->Some_0.bit_seq().len()) + " != maxDoc = "@
                + decimal_int(max_doc as int),
        ),
{
    IteratorAcceptDocs::from_iterator_supplier(supplier, live_docs, max_doc)
}

} // verus!
