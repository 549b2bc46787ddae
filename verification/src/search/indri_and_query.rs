//! Queries whose score is made of the scores of all clauses.

use vstd::prelude::*;
use vstd::std_specs::iter::IteratorSpec;

use crate::search::index_searcher::NumClausesCheckVisitor;
use crate::search::indri_query::{clauses_text, BooleanClause, IndriQuery};
use crate::search::query::QueryNode;
use crate::search::score_mode::ScoreMode;

verus! {

/// Matches the documents that one clause at least matches, and scores them by all clauses.
pub struct IndriAndQuery<Q> {
    /// The clauses.
    pub base: IndriQuery<Q>,
}

impl<Q: QueryNode> IndriAndQuery<Q> {
    /// Creates a query of the given clauses.
    pub fn new(clauses: Vec<BooleanClause<Q>>) -> (r: Self)
        ensures
            r.base.clauses == clauses,
    {
        IndriAndQuery { base: IndriQuery::new(clauses) }
    }

    /// Returns the clauses.
    pub fn get_clauses(&self) -> (r: &[BooleanClause<Q>])
        ensures
            r@ == self.base.clauses@,
    {
        self.base.get_clauses()
    }

    /// Returns an iterator over the clauses.
    pub fn iter(&self) -> (r: std::slice::Iter<'_, BooleanClause<Q>>)
        ensures
            IteratorSpec::remaining(&r) == self.base.clauses@.as_ref(),
    {
        self.base.iter()
    }

    /// Renders the query; `field` is left out of the rendering.
    pub fn to_query_string(&self, field: &str) -> (r: String)
        ensures
            r@ == clauses_text(self.base.clauses@, field@, self.base.clauses@.len() as int),
    {
        self.base.to_query_string(field)
    }

    /// Shows the query to a visitor as a single clause.
    pub fn visit(&self, visitor: &mut NumClausesCheckVisitor)
        requires
            old(visitor).wf(),
        ensures
            final(visitor).wf(),
            final(visitor).limit() == old(visitor).limit(),
            final(visitor).visits() == old(visitor).visits() + 1,
    {
        self.base.visit(visitor)
    }

    /// Returns which documents the clauses are prepared for: those with the greatest scores,
    /// whatever is asked for.
    pub fn weight_score_mode(&self, score_mode: ScoreMode) -> (r: ScoreMode)
        ensures
            r == ScoreMode::TOP_SCORES,
    {
        ScoreMode::TOP_SCORES
    }

    /// Returns whether two queries have equal clauses in the same order.
    pub fn query_eq(&self, other: &Self) -> (r: bool)
        ensures
            r <==> self.base.clauses@.len() == other.base.clauses@.len() && forall|i: int|
                0 <= i < self.base.clauses@.len() ==> (#[trigger] self.base.clauses@[i]).occur
                    == other.base.clauses@[i].occur && self.base.clauses@[i].query.equals(
                    &*other.base.clauses@[i].query,
                ),
    {
        self.base.base_eq(&other.base)
    }
}

} // verus!
