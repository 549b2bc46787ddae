//! Providing the matches of a query in a leaf.

use vstd::prelude::*;

use crate::error::LuceneError;
use crate::search::bulk_scorer::BulkScorer;
use crate::search::disjunction_max_bulk_scorer::nonnegative;
use crate::search::scorer::Scorer;

verus! {

/// Provides an iterator over the matches of a clause in a leaf.
pub trait ScorerSupplier {
    /// Iterates over the matches.
    type S: Scorer;

    /// Scores the matches in bulk.
    type B: BulkScorer;

    /// The estimated number of matches.
    spec fn reported_cost(&self) -> i64;

    /// Whether the clause was told that its scores alone decide.
    spec fn top_level(&self) -> bool;

    /// What [`Self::get`] returns for a lead cost.
    spec fn supplied(&self, lead_cost: i64) -> Self::S;

    /// What [`Self::bulk_scorer`] returns.
    spec fn bulk_supplied(&self) -> Self::B;

    /// Whether nothing fails.
    spec fn infallible(&self) -> bool;

    /// Returns the estimated number of matches.
    fn cost(&self) -> (r: i64)
        ensures
            r == self.reported_cost(),
    ;

    /// Returns an iterator over the matches, before the first one. `lead_cost` is how often it will be
    /// moved.
    ///
    /// # Errors
    ///
    /// Whatever reading the leaf fails with.
    fn get(&mut self, lead_cost: i64) -> (r: Result<Self::S, LuceneError>)
        ensures
            old(self).infallible() ==> r is Ok,
            final(self).reported_cost() == old(self).reported_cost(),
            r matches Ok(s) ==> {
                &&& s == old(self).supplied(lead_cost)
                &&& s.inv()
                &&& s.view().valid()
                &&& s.view().ids.doc == -1
                &&& old(self).infallible() ==> s.infallible()
            },
    ;

    /// Returns a scorer of ranges of the matches.
    ///
    /// # Errors
    ///
    /// Whatever reading the leaf fails with.
    fn bulk_scorer(&mut self) -> (r: Result<Self::B, LuceneError>)
        ensures
            old(self).infallible() ==> r is Ok,
            final(self).reported_cost() == old(self).reported_cost(),
            r matches Ok(b) ==> {
                &&& b == old(self).bulk_supplied()
                &&& b.inv()
                &&& old(self).infallible() ==> b.infallible()
                &&& nonnegative(b.remaining())
                &&& forall|d: int| #[trigger] b.remaining().dom().contains(d) ==> d >= 0
            },
    ;

    /// Tells the clause that its scores alone decide which documents are hits.
    ///
    /// # Errors
    ///
    /// Whatever reading the leaf fails with.
    fn set_top_level_scoring_clause(&mut self) -> (r: Result<(), LuceneError>)
        ensures
            old(self).infallible() ==> r is Ok,
            final(self).infallible() == old(self).infallible(),
            final(self).reported_cost() == old(self).reported_cost(),
            r is Ok ==> final(self).top_level(),
            final(self).bulk_supplied().remaining() == old(self).bulk_supplied().remaining(),
    ;
}

} // verus!
