//! An iterator over matches that hands everything to another one.

use std::sync::Arc;

use vstd::prelude::*;

use crate::error::LuceneError;
use crate::search::matches::{MatchView, MatchesIterator};

verus! {

/// Hands everything to another iterator.
pub struct FilterMatchesIterator<M: MatchesIterator> {
    /// The other iterator.
    pub inner: M,
}

impl<M: MatchesIterator> FilterMatchesIterator<M> {
    /// Creates an iterator that hands everything to `inner`.
    pub fn new(inner: M) -> (r: Self)
        ensures
            r.inner == inner,
    {
        FilterMatchesIterator { inner }
    }

    /// Returns the other iterator.
    pub fn into_inner(self) -> (r: M)
        ensures
            r == self.inner,
    {
        self.inner
    }
}

impl<M: MatchesIterator> MatchesIterator for FilterMatchesIterator<M> {
    type Query = M::Query;

    type Sub = M::Sub;

    open spec fn view(&self) -> MatchView<M::Query, M::Sub> {
        self.inner.view()
    }

    open spec fn inv(&self) -> bool {
        self.inner.inv()
    }

    open spec fn infallible(&self) -> bool {
        self.inner.infallible()
    }

    fn next(&mut self) -> (r: Result<bool, LuceneError>) {
        self.inner.next()
    }

    fn start_position(&self) -> (r: i32) {
        self.inner.start_position()
    }

    fn end_position(&self) -> (r: i32) {
        self.inner.end_position()
    }

    fn start_offset(&self) -> (r: Result<i32, LuceneError>) {
        self.inner.start_offset()
    }

    fn end_offset(&self) -> (r: Result<i32, LuceneError>) {
        self.inner.end_offset()
    }

    fn get_sub_matches(&self) -> (r: Result<Option<M::Sub>, LuceneError>) {
        self.inner.get_sub_matches()
    }

    fn get_query(&self) -> (r: Arc<M::Query>) {
        self.inner.get_query()
    }
}

} // verus!
