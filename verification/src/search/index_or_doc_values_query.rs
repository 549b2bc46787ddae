//! Queries that can be answered by an index or by the values of documents, whichever is
//! cheaper.

use std::sync::Arc;

use vstd::prelude::*;
use vstd::string::*;

use crate::error::LuceneError;
use crate::search::disjunction_max_query::form_of;
use crate::search::explanation::Explanation;
use crate::search::index_searcher::{
    LeafReaderContext, NumClausesCheckVisitor, SearchableQuery, Weight,
};
use crate::search::query::{QueryKind, QueryNode};
use crate::search::score_mode::ScoreMode;
use crate::search::scorer_supplier::ScorerSupplier;
use crate::search::weight::ClauseWeight;

verus! {

/// Two queries that match the same documents: one that is fast over all documents, and one
/// that is fast for a given document.
pub struct IndexOrDocValuesQuery<Q> {
    /// The query that is fast over all documents.
    pub index_query: Arc<Q>,
    /// The query that is fast for a given document.
    pub dv_query: Arc<Q>,
}

/// What an [`IndexOrDocValuesQuery`] is rewritten to.
pub enum RewrittenChoice<Q> {
    /// A query that matches all documents.
    MatchAllDocs,
    /// A query that matches no document.
    MatchNoDocs,
    /// Two other queries.
    Choice(IndexOrDocValuesQuery<Q>),
}

impl<Q: QueryNode> IndexOrDocValuesQuery<Q> {
    /// Shows the clauses of both queries to a visitor.
    pub fn visit(&self, visitor: &mut NumClausesCheckVisitor)
        requires
            old(visitor).wf(),
        ensures
            final(visitor).wf(),
            final(visitor).limit() == old(visitor).limit(),
            final(visitor).visits() == old(visitor).visits() + self.index_query.num_clauses()
                + self.dv_query.num_clauses(),
    {
        self.index_query.visit(visitor);
        self.dv_query.visit(visitor);
    }

    /// Creates a query of two that match the same documents.
    pub fn new(index_query: Arc<Q>, dv_query: Arc<Q>) -> (r: Self)
        ensures
            r.index_query == index_query,
            r.dv_query == dv_query,
    {
        IndexOrDocValuesQuery { index_query, dv_query }
    }

    /// Returns the query that is fast over all documents.
    pub fn get_index_query(&self) -> (r: &Arc<Q>)
        ensures
            *r == self.index_query,
    {
        &self.index_query
    }

    /// Returns the query that is fast for a given document.
    pub fn get_random_access_query(&self) -> (r: &Arc<Q>)
        ensures
            *r == self.dv_query,
    {
        &self.dv_query
    }

    /// Whether `r` is what the query is rewritten to; `None` when it stays as it is.
    pub open spec fn rewrites_to(self, r: Option<RewrittenChoice<Q>>) -> bool {
        let index_form = form_of(*self.index_query);
        let dv_form = form_of(*self.dv_query);
        if index_form.node_kind() == QueryKind::MatchAllDocs || dv_form.node_kind()
            == QueryKind::MatchAllDocs {
            r == Some(RewrittenChoice::<Q>::MatchAllDocs)
        } else if index_form.node_kind() == QueryKind::MatchNoDocs || dv_form.node_kind()
            == QueryKind::MatchNoDocs {
            r == Some(RewrittenChoice::<Q>::MatchNoDocs)
        } else if self.index_query.next_form() is Some || self.dv_query.next_form() is Some {
            r matches Some(RewrittenChoice::Choice(q)) && *q.index_query == index_form
                && *q.dv_query == dv_form
        } else {
            r is None
        }
    }

    /// Rewrites the query; `None` when it stays as it is.
    ///
    /// # Errors
    ///
    /// Whatever rewriting the two queries fails with.
    pub fn rewrite(&self) -> (r: Result<Option<RewrittenChoice<Q>>, LuceneError>)
        ensures
            self.index_query.infallible() && self.dv_query.infallible() ==> r is Ok,
            r matches Ok(rewritten) ==> self.rewrites_to(rewritten),
    {
        let index_rewrite = self.index_query.rewrite()?;
        let dv_rewrite = self.dv_query.rewrite()?;
        let changed: bool = index_rewrite.is_some() || dv_rewrite.is_some();
        let index_form = match index_rewrite {
            Some(q) => Arc::new(q),
            None => Arc::clone(&self.index_query),
        };
        let dv_form = match dv_rewrite {
            Some(q) => Arc::new(q),
            None => Arc::clone(&self.dv_query),
        };
        let index_kind: QueryKind = index_form.kind();
        let dv_kind: QueryKind = dv_form.kind();
        if index_kind == QueryKind::MatchAllDocs || dv_kind == QueryKind::MatchAllDocs {
            return Ok(Some(RewrittenChoice::MatchAllDocs));
        }
        if index_kind == QueryKind::MatchNoDocs || dv_kind == QueryKind::MatchNoDocs {
            return Ok(Some(RewrittenChoice::MatchNoDocs));
        }
        if changed {
            return Ok(
                Some(RewrittenChoice::Choice(IndexOrDocValuesQuery::new(index_form, dv_form))),
            );
        }
        Ok(None)
    }

    /// Renders the query; `field` is left out of the rendering.
    pub fn to_query_string(&self, field: &str) -> (r: String)
        ensures
            r@ == "IndexOrDocValuesQuery(indexQuery="@ + self.index_query.rendered(field@)
                + ", dvQuery="@ + self.dv_query.rendered(field@) + ")"@,
    {
        let mut text = "IndexOrDocValuesQuery(indexQuery=".to_owned();
        let index_text = self.index_query.to_query_string(field);
        text.append(index_text.as_str());
        text.append(", dvQuery=");
        let dv_text = self.dv_query.to_query_string(field);
        text.append(dv_text.as_str());
        text.append(")");
        text
    }

    /// Returns whether two queries are made of equal queries.
    pub fn query_eq(&self, other: &Self) -> (r: bool)
        ensures
            r <==> self.index_query.equals(&*other.index_query) && self.dv_query.equals(
                &*other.dv_query,
            ),
    {
        self.index_query.query_eq(&*other.index_query) && self.dv_query.query_eq(&*other.dv_query)
    }
}

impl<Q: SearchableQuery> IndexOrDocValuesQuery<Q> {
    /// Prepares the query for a search.
    ///
    /// # Errors
    ///
    /// Whatever reading the index fails with.
    pub fn create_weight(&self, score_mode: ScoreMode, boost: i32) -> (r: Result<
        IndexOrDocValuesWeight<Q::W>,
        LuceneError,
    >)
        ensures
            self.index_query.preparable() && self.dv_query.preparable() ==> r is Ok,
            r matches Ok(w) ==> *w.index_weight == self.index_query.weight(score_mode, boost)
                && *w.dv_weight == self.dv_query.weight(score_mode, boost),
    {
        let index_weight = self.index_query.create_weight(score_mode, boost)?;
        let dv_weight = self.dv_query.create_weight(score_mode, boost)?;
        Ok(IndexOrDocValuesWeight { index_weight, dv_weight })
    }
}

/// Provides the matches in a leaf, by the cheaper of two queries.
pub struct IndexOrDocValuesScorerSupplier<P> {
    /// Provides the matches of the query that is fast over all documents.
    pub index_scorer_supplier: P,
    /// Provides the matches of the query that is fast for a given document.
    pub dv_scorer_supplier: P,
}

impl<P: ScorerSupplier> IndexOrDocValuesScorerSupplier<P> {
    /// Whether the index is used: when its cost, an eighth of which counts, is not greater
    /// than the number of documents that are looked at.
    pub open spec fn uses_index(self, lead_cost: i64) -> bool {
        ((self.index_scorer_supplier.reported_cost() as u64) >> 3) as i64 <= lead_cost
    }
}

impl<P: ScorerSupplier> ScorerSupplier for IndexOrDocValuesScorerSupplier<P> {
    type S = P::S;

    type B = P::B;

    open spec fn reported_cost(&self) -> i64 {
        self.index_scorer_supplier.reported_cost()
    }

    /// Nothing is done about it.
    open spec fn top_level(&self) -> bool {
        true
    }

    /// What the cheaper of the two queries provides.
    open spec fn supplied(&self, lead_cost: i64) -> P::S {
        if self.uses_index(lead_cost) {
            self.index_scorer_supplier.supplied(lead_cost)
        } else {
            self.dv_scorer_supplier.supplied(lead_cost)
        }
    }

    open spec fn bulk_supplied(&self) -> P::B {
        self.index_scorer_supplier.bulk_supplied()
    }

    open spec fn infallible(&self) -> bool {
        self.index_scorer_supplier.infallible() && self.dv_scorer_supplier.infallible()
    }

    /// Returns an iterator over the matches. `lead_cost` is how often it will be moved.
    ///
    /// # Errors
    ///
    /// Whatever reading the leaf fails with.
    fn get(&mut self, lead_cost: i64) -> (r: Result<P::S, LuceneError>)
        ensures
            if old(self).uses_index(lead_cost) {
                final(self).dv_scorer_supplier == old(self).dv_scorer_supplier
                    && final(self).index_scorer_supplier.reported_cost() == old(
                    self,
                ).index_scorer_supplier.reported_cost()
            } else {
                final(self).index_scorer_supplier == old(self).index_scorer_supplier
                    && final(self).dv_scorer_supplier.reported_cost() == old(
                    self,
                ).dv_scorer_supplier.reported_cost()
            },
    {
        let threshold: i64 = ((self.index_scorer_supplier.cost() as u64) >> 3) as i64;
        if threshold <= lead_cost {
            self.index_scorer_supplier.get(lead_cost)
        } else {
            self.dv_scorer_supplier.get(lead_cost)
        }
    }

    /// Returns a scorer of ranges of the matches, by the index.
    ///
    /// # Errors
    ///
    /// Whatever reading the leaf fails with.
    fn bulk_scorer(&mut self) -> (r: Result<P::B, LuceneError>)
        ensures
            old(self).index_scorer_supplier.infallible() ==> r is Ok,
            final(self).dv_scorer_supplier == old(self).dv_scorer_supplier,
    {
        self.index_scorer_supplier.bulk_scorer()
    }

    /// Returns the estimated number of matches.
    fn cost(&self) -> (r: i64) {
        self.index_scorer_supplier.cost()
    }

    /// Does nothing.
    ///
    /// # Errors
    ///
    /// None.
    fn set_top_level_scoring_clause(&mut self) -> (r: Result<(), LuceneError>)
        ensures
            r is Ok,
            *final(self) == *old(self),
    {
        Ok(())
    }
}

/// What an [`IndexOrDocValuesQuery`] is prepared as.
pub struct IndexOrDocValuesWeight<W> {
    /// What the query that is fast over all documents is prepared as.
    pub index_weight: Arc<W>,
    /// What the query that is fast for a given document is prepared as.
    pub dv_weight: Arc<W>,
}

impl<W: ClauseWeight> Weight for IndexOrDocValuesWeight<W> {
    type P = IndexOrDocValuesScorerSupplier<W::P>;

    open spec fn explained(&self, ctx: LeafReaderContext, doc: i32) -> Result<
        Explanation,
        LuceneError,
    > {
        self.dv_weight.explained(ctx, doc)
    }

    /// What provides the matches in a leaf, if both queries have some.
    open spec fn supplier(&self, ctx: LeafReaderContext) -> Result<Option<Self::P>, LuceneError> {
        match (self.index_weight.supplier(ctx), self.dv_weight.supplier(ctx)) {
            (Err(e), _) => Err(e),
            (_, Err(e)) => Err(e),
            (Ok(Some(index_scorer_supplier)), Ok(Some(dv_scorer_supplier))) => Ok(
                Some(IndexOrDocValuesScorerSupplier { index_scorer_supplier, dv_scorer_supplier }),
            ),
            _ => Ok(None),
        }
    }

    /// Explains why a document of a leaf matches, or does not match.
    ///
    /// # Errors
    ///
    /// Whatever reading the document fails with.
    fn explain(&self, ctx: &LeafReaderContext, doc: i32) -> (r: Result<Explanation, LuceneError>) {
        self.dv_weight.explain(ctx, doc)
    }

    /// Returns what provides the matches in a leaf; `None` when one of the queries has none.
    ///
    /// # Errors
    ///
    /// Whatever reading the leaf fails with.
    fn scorer_supplier(&self, ctx: &LeafReaderContext) -> (r: Result<
        Option<IndexOrDocValuesScorerSupplier<W::P>>,
        LuceneError,
    >) {
        let index = match self.index_weight.scorer_supplier(ctx) {
            Ok(index) => index,
            Err(e) => {
                return Err(e);
            },
        };
        let dv = match self.dv_weight.scorer_supplier(ctx) {
            Ok(dv) => dv,
            Err(e) => {
                return Err(e);
            },
        };
        match (index, dv) {
            (Some(index_scorer_supplier), Some(dv_scorer_supplier)) => Ok(
                Some(IndexOrDocValuesScorerSupplier { index_scorer_supplier, dv_scorer_supplier }),
            ),
            _ => Ok(None),
        }
    }
}

impl<W: ClauseWeight> ClauseWeight for IndexOrDocValuesWeight<W> {
    type M = W::M;

    open spec fn cacheable(&self, ctx: LeafReaderContext) -> bool {
        self.index_weight.cacheable(ctx)
    }

    open spec fn matched(&self, ctx: LeafReaderContext, doc: i32) -> Result<
        Option<W::M>,
        LuceneError,
    > {
        self.dv_weight.matched(ctx, doc)
    }

    /// The number of matches that the one query knows, or else the other.
    open spec fn counted(&self, ctx: LeafReaderContext) -> Result<i32, LuceneError> {
        match self.index_weight.counted(ctx) {
            Ok(n) => if n != -1 {
                Ok(n)
            } else {
                self.dv_weight.counted(ctx)
            },
            Err(e) => Err(e),
        }
    }

    /// Returns whether the matches in a leaf can be cached.
    fn is_cacheable(&self, ctx: &LeafReaderContext) -> (r: bool) {
        self.index_weight.is_cacheable(ctx)
    }

    /// Returns the positions of the matches in a document; `None` when it does not match.
    ///
    /// # Errors
    ///
    /// Whatever reading the document fails with.
    fn matches(&self, ctx: &LeafReaderContext, doc: i32) -> (r: Result<
        Option<W::M>,
        LuceneError,
    >) {
        self.dv_weight.matches(ctx, doc)
    }

    /// Returns the number of matches in a leaf; -1 when neither query knows it.
    ///
    /// # Errors
    ///
    /// Whatever reading the leaf fails with.
    fn count(&self, ctx: &LeafReaderContext) -> (r: Result<i32, LuceneError>) {
        match self.index_weight.count(ctx) {
            Ok(n) => {
                if n != -1 {
                    Ok(n)
                } else {
                    self.dv_weight.count(ctx)
                }
            },
            Err(e) => Err(e),
        }
    }
}

} // verus!
