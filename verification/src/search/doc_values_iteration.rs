//! The documents that have values.

use vstd::prelude::*;

use crate::error::LuceneError;
use crate::search::doc_id_set_iterator::{DocIdSetIterator, DocIds};
use crate::search::doc_values::DocValues;

verus! {

/// Iterates over the documents that have values.
pub struct DocValuesIterator<V: DocValues> {
    inner: V,
    cost: i64,
}

impl<V: DocValues> DocValuesIterator<V> {
    /// The values.
    pub closed spec fn source(&self) -> V {
        self.inner
    }

    /// Creates an iterator over the documents that have values. `cost` is an estimate of
    /// their number.
    pub fn new(inner: V, cost: i64) -> (r: Self)
        requires
            inner.inv(),
        ensures
            r.source() == inner,
            r.inv(),
            r.view() == inner.view().ids(),
            r.infallible() == inner.infallible(),
            r.reported_cost() == cost,
    {
        DocValuesIterator { inner, cost }
    }

    /// Returns the values.
    pub fn values(&self) -> (r: &V)
        ensures
            *r == self.source(),
    {
        &self.inner
    }
}

impl<V: DocValues> DocIdSetIterator for DocValuesIterator<V> {
    open spec fn view(&self) -> DocIds {
        self.source().view().ids()
    }

    open spec fn inv(&self) -> bool {
        self.source().inv()
    }

    open spec fn infallible(&self) -> bool {
        self.source().infallible()
    }

    closed spec fn reported_cost(&self) -> i64 {
        self.cost
    }

    fn doc_id(&self) -> (r: i32) {
        self.inner.doc_id()
    }

    fn next_doc(&mut self) -> (r: Result<i32, LuceneError>)
        ensures
            r matches Ok(d) ==> final(self).source().view() == old(self).source().view().at(
                d as int,
            ),
    {
        self.inner.next_doc()
    }

    fn advance(&mut self, target: i32) -> (r: Result<i32, LuceneError>)
        ensures
            r matches Ok(d) ==> final(self).source().view() == old(self).source().view().at(
                d as int,
            ),
    {
        self.inner.advance(target)
    }

    fn cost(&self) -> (r: i64) {
        self.cost
    }

    /// Returns the end of the run that the values report.
    fn doc_id_run_end(&self) -> (r: Result<i32, LuceneError>)
        ensures
            call_ensures(V::doc_id_run_end, (&self.source(),), r),
    {
        self.inner.doc_id_run_end()
    }
}

} // verus!
