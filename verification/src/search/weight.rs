//! What queries that are made of other queries need of those when they are prepared.

use vstd::prelude::*;

use crate::error::LuceneError;
use crate::search::index_searcher::{LeafReaderContext, Weight};

verus! {

/// What a clause is prepared as.
pub trait ClauseWeight: Weight {
    /// The positions of the matches in a document.
    type M;

    /// What [`Self::is_cacheable`] returns.
    spec fn cacheable(&self, ctx: LeafReaderContext) -> bool;

    /// What [`Self::matches`] returns.
    spec fn matched(&self, ctx: LeafReaderContext, doc: i32) -> Result<
        Option<Self::M>,
        LuceneError,
    >;

    /// What [`Self::count`] returns.
    spec fn counted(&self, ctx: LeafReaderContext) -> Result<i32, LuceneError>;

    /// Returns whether the matches in a leaf can be cached.
    fn is_cacheable(&self, ctx: &LeafReaderContext) -> (r: bool)
        ensures
            r == self.cacheable(*ctx),
    ;

    /// Returns the positions of the matches in a document; `None` when it does not
    /// match.
    ///
    /// # Errors
    ///
    /// Whatever reading the leaf fails with.
    fn matches(&self, ctx: &LeafReaderContext, doc: i32) -> (r: Result<
        Option<Self::M>,
        LuceneError,
    >)
        ensures
            r == self.matched(*ctx, doc),
    ;

    /// Returns the number of matches in a leaf; -1 when it is not known.
    ///
    /// # Errors
    ///
    /// Whatever reading the leaf fails with.
    fn count(&self, ctx: &LeafReaderContext) -> (r: Result<i32, LuceneError>)
        ensures
            r == self.counted(*ctx),
    ;
}

} // verus!
