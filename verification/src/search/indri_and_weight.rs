//! Queries whose score is made of the scores of all clauses, prepared for a search.

use std::sync::Arc;

use vstd::prelude::*;
use vstd::string::*;

use crate::error::LuceneError;
use crate::search::disjunction_max_query::{is_first_error, present};
use crate::search::explanation::Explanation;
use crate::search::index_searcher::{
    IndexSearcher, LeafReaderContext, QueryCache, SearchableQuery, UNIT_BOOST,
};
use crate::search::indri_disjunction_scorer::{all_docs, IndriDisjunctionScorer};
use crate::search::indri_query::IndriQuery;
use crate::search::query::QueryNode;
use crate::search::score_mode::ScoreMode;
use crate::search::scorer::Scorer;
use crate::search::scorer_supplier::ScorerSupplier;
use crate::search::weight::ClauseWeight;

verus! {

/// What provides the matches of the clauses in a leaf.
#[verifier::reject_recursive_types(S)]
pub enum IndriScorers<S: Scorer> {
    /// No clause matches.
    Nothing,
    /// One clause matches.
    One(S),
    /// Several clauses match.
    Many(IndriDisjunctionScorer<S>),
}

/// What is known of a document before its score is computed.
pub enum IndriExplanations {
    /// The explanations of the clauses that match the document.
    Matched(Vec<Explanation>),
    /// The explanation of why the document does not match.
    NotMatched(Explanation),
}

/// What a query is prepared as.
pub struct IndriAndWeight<Q, W> {
    /// The clauses.
    pub query: IndriQuery<Q>,
    /// What the clauses are prepared as.
    pub weights: Vec<Arc<W>>,
    /// Which documents are visited, and whether with their scores.
    pub score_mode: ScoreMode,
    /// The boost, an integer that is ordered like it.
    pub boost: i32,
}

/// The text for a document that does not match.
pub open spec fn failure_text() -> Seq<char> {
    "Failure to meet condition(s) of required/prohibited clause(s)"@
}

/// Whether `e` says that a required clause does not match, for the reason `why`.
pub open spec fn says_required(e: Explanation, query: Seq<char>, why: Explanation) -> bool {
    &&& !e.is_match
    &&& e.value == 0
    &&& e.description@ == "no match on required clause ("@ + query + ")"@
    &&& e.details@ == seq![why]
}

impl<Q: QueryNode, W: ClauseWeight> IndriAndWeight<Q, W> {
    /// The explanations of the clauses.
    pub open spec fn clause_results(&self, ctx: LeafReaderContext, doc: i32) -> Seq<
        Result<Explanation, LuceneError>,
    > {
        self.weights@.map_values(|w: Arc<W>| w.explained(ctx, doc))
    }

    /// Whether the clause at position `i` is required but does not match.
    pub open spec fn fails(&self, results: Seq<Result<Explanation, LuceneError>>, i: int) -> bool {
        !results[i]->Ok_0.is_match && self.query.clauses@[i].required()
    }

    /// Whether the clause at position `i` has a part in the explanation.
    pub open spec fn told(&self, results: Seq<Result<Explanation, LuceneError>>, i: int) -> bool {
        results[i]->Ok_0.is_match || self.query.clauses@[i].required()
    }

    /// Whether `subs` explains the first `n` clauses that match or are required, in order.
    pub open spec fn explains(
        &self,
        results: Seq<Result<Explanation, LuceneError>>,
        n: int,
        subs: Seq<Explanation>,
    ) -> bool
        decreases n,
    {
        if n <= 0 {
            subs.len() == 0
        } else if self.told(results, n - 1) {
            &&& subs.len() > 0
            &&& if results[n - 1]->Ok_0.is_match {
                subs.last() == results[n - 1]->Ok_0
            } else {
                says_required(
                    subs.last(),
                    self.query.clauses@[n - 1].query.rendered(""@),
                    results[n - 1]->Ok_0,
                )
            }
            &&& self.explains(results, n - 1, subs.drop_last())
        } else {
            self.explains(results, n - 1, subs)
        }
    }

    /// Prepares the clauses of a query for a search.
    ///
    /// # Errors
    ///
    /// Whatever reading the index fails with.
    pub fn new<S, C, P, T, E>(
        query: IndriQuery<Q>,
        searcher: &IndexSearcher<S, C, P, T, E>,
        score_mode: ScoreMode,
        boost: i32,
    ) -> (r: Result<Self, LuceneError>) where Q: SearchableQuery<W = W>, C: QueryCache<W, P>
        ensures
            (forall|i: int|
                0 <= i < query.clauses@.len() ==> (
                #[trigger] query.clauses@[i]).query.preparable()) ==> r is Ok,
            r matches Ok(w) ==> {
                &&& w.query == query
                &&& w.weights@.len() == query.clauses@.len()
                &&& forall|i: int|
                    0 <= i < w.weights@.len() ==> *#[trigger] w.weights@[i] == searcher.prepared(
                        *query.clauses@[i].query,
                        score_mode,
                        UNIT_BOOST,
                    )
                &&& w.score_mode == score_mode
                &&& w.boost == boost
            },
    {
        let n: usize = query.clauses.len();
        let mut weights: Vec<Arc<W>> = Vec::with_capacity(n);
        let mut i: usize = 0;
        while i < n
            invariant
                n == query.clauses@.len(),
                i <= n,
                weights@.len() == i,
                forall|j: int|
                    0 <= j < i ==> *#[trigger] weights@[j] == searcher.prepared(
                        *query.clauses@[j].query,
                        score_mode,
                        UNIT_BOOST,
                    ),
            decreases n - i,
        {
            let weight = searcher.create_weight(&*query.clauses[i].query, score_mode, UNIT_BOOST)?;
            weights.push(weight);
            i += 1;
        }
        Ok(IndriAndWeight { query, weights, score_mode, boost })
    }

    /// Returns whether the matches in a leaf can be cached, which is so when those of all
    /// clauses can.
    pub fn is_cacheable(&self, ctx: &LeafReaderContext) -> (r: bool)
        ensures
            r <==> forall|i: int|
                0 <= i < self.weights@.len() ==> (#[trigger] self.weights@[i]).cacheable(*ctx),
    {
        let mut i: usize = 0;
        while i < self.weights.len()
            invariant
                i <= self.weights@.len(),
                forall|j: int| 0 <= j < i ==> (#[trigger] self.weights@[j]).cacheable(*ctx),
            decreases self.weights.len() - i,
        {
            if !self.weights[i].is_cacheable(ctx) {
                assert(!self.weights@[i as int].cacheable(*ctx));
                return false;
            }
            i += 1;
        }
        true
    }

    /// Returns what provides the matches of the clauses in a leaf.
    ///
    /// # Errors
    ///
    /// Whatever reading the leaf fails with.
    pub fn get_scorer(&self, ctx: &LeafReaderContext) -> (r: Result<
        IndriScorers<<W::P as ScorerSupplier>::S>,
        LuceneError,
    >)
        requires
            self.weights@.len() < i32::MAX,
        ensures
            ({
                let results = self.weights@.map_values(|w: Arc<W>| w.supplier(*ctx));
                let scorers = present(results, results.len() as int).map_values(
                    |p: W::P| p.supplied(i64::MAX),
                );
                &&& (forall|i: int|
                    0 <= i < results.len() ==> #[trigger] results[i] is Ok && (results[i]->Ok_0
                        matches Some(p) ==> p.infallible())) ==> r is Ok
                &&& r is Ok ==> forall|i: int|
                    0 <= i < results.len() ==> #[trigger] results[i] is Ok
                &&& (forall|i: int|
                    0 <= i < results.len() && (#[trigger] results[i] matches Ok(Some(p)))
                        ==> results[i]->Ok_0->0.infallible()) ==> (r matches Err(e)
                    ==> is_first_error(results, e))
                &&& r matches Ok(IndriScorers::Nothing) ==> scorers.len() == 0
                &&& r matches Ok(IndriScorers::One(s)) ==> scorers == seq![s]
                &&& r matches Ok(IndriScorers::Many(many)) ==> {
                    &&& scorers.len() >= 2
                    &&& many.inv()
                    &&& many.own_boost() == self.boost
                    &&& many.view().ids.doc == -1
                    &&& many.view().ids.docs == all_docs(scorers)
                    &&& many.approx().supplied_order().len() == scorers.len()
                    &&& forall|i: int|
                        0 <= i < scorers.len() ==> (#[trigger] many.approx().clauses()[
                        many.approx().supplied_order()[i] as int]).scorer == scorers[i]
                }
            }),
    {
        let ghost results = self.weights@.map_values(|w: Arc<W>| w.supplier(*ctx));
        let mut scorers: Vec<<W::P as ScorerSupplier>::S> = Vec::new();
        let mut i: usize = 0;
        while i < self.weights.len()
            invariant
                i <= self.weights@.len(),
                results == self.weights@.map_values(|w: Arc<W>| w.supplier(*ctx)),
                forall|j: int| 0 <= j < i ==> #[trigger] results[j] is Ok,
                scorers@.len() <= i,
                scorers@ == present(results, i as int).map_values(|p: W::P| p.supplied(i64::MAX)),
                forall|j: int|
                    0 <= j < scorers@.len() ==> (#[trigger] scorers@[j]).inv()
                        && scorers@[j].view().ids.doc == -1,
            decreases self.weights.len() - i,
        {
            let found = self.weights[i].scorer_supplier(ctx);
            assert(results[i as int] == found);
            match found {
                Err(e) => {
                    assert(is_first_error(results, e));
                    return Err(e);
                },
                Ok(None) => {},
                Ok(Some(p)) => {
                    let ghost before = present(results, i as int);
                    let mut supplier = p;
                    let scorer = supplier.get(i64::MAX)?;
                    scorers.push(scorer);
                    assert(scorers@ =~= before.push(p).map_values(|p: W::P| p.supplied(i64::MAX)));
                },
            }
            i += 1;
        }
        if scorers.len() == 0 {
            return Ok(IndriScorers::Nothing);
        }
        if scorers.len() == 1 {
            let ghost found = scorers@;
            match scorers.pop() {
                Some(scorer) => {
                    assert(found =~= seq![scorer]);
                    return Ok(IndriScorers::One(scorer));
                },
                None => {
                    return Ok(IndriScorers::Nothing);
                },
            }
        }
        Ok(IndriScorers::Many(IndriDisjunctionScorer::new(scorers, self.boost)))
    }

    /// Returns the explanations of the clauses: those of the clauses that match, or why the
    /// document does not match.
    ///
    /// # Errors
    ///
    /// Whatever reading the leaf fails with.
    pub fn explain_clauses(&self, ctx: &LeafReaderContext, doc: i32) -> (r: Result<
        IndriExplanations,
        LuceneError,
    >)
        requires
            self.weights@.len() == self.query.clauses@.len(),
        ensures
            ({
                let results = self.clause_results(*ctx, doc);
                let n = results.len() as int;
                &&& r is Ok <==> forall|i: int| 0 <= i < n ==> #[trigger] results[i] is Ok
                &&& r matches Err(e) ==> is_first_error(results, e)
                &&& r matches Ok(IndriExplanations::Matched(subs)) ==> {
                    &&& forall|i: int| 0 <= i < n ==> !#[trigger] self.fails(results, i)
                    &&& self.explains(results, n, subs@)
                }
                &&& r matches Ok(IndriExplanations::NotMatched(e)) ==> {
                    &&& exists|i: int| 0 <= i < n && #[trigger] self.fails(results, i)
                    &&& !e.is_match
                    &&& e.value == 0
                    &&& e.description@ == failure_text()
                    &&& self.explains(results, n, e.details@)
                }
            }),
    {
        let ghost results = self.clause_results(*ctx, doc);
        let mut subs: Vec<Explanation> = Vec::new();
        let mut fail: bool = false;
        let mut i: usize = 0;
        while i < self.weights.len()
            invariant
                i <= self.weights@.len(),
                self.weights@.len() == self.query.clauses@.len(),
                results == self.clause_results(*ctx, doc),
                forall|j: int| 0 <= j < i ==> #[trigger] results[j] is Ok,
                fail <==> exists|j: int| 0 <= j < i && #[trigger] self.fails(results, j),
                self.explains(results, i as int, subs@),
            decreases self.weights.len() - i,
        {
            let explained = self.weights[i].explain(ctx, doc);
            assert(results[i as int] == explained);
            let explanation = match explained {
                Err(e) => {
                    assert(is_first_error(results, e));
                    return Err(e);
                },
                Ok(e) => e,
            };
            let ghost before = subs@;
            if explanation.is_match {
                subs.push(explanation);
                assert(subs@.drop_last() =~= before);
                assert(!self.fails(results, i as int));
            } else if self.query.clauses[i].is_required() {
                let text = self.query.clauses[i].query.to_query_string("");
                let mut message = "no match on required clause (".to_owned();
                message.append(text.as_str());
                message.append(")");
                let mut details: Vec<Explanation> = Vec::with_capacity(1);
                details.push(explanation);
                assert(details@ =~= seq![explanation]);
                subs.push(Explanation::no_match(message, details));
                assert(subs@.drop_last() =~= before);
                fail = true;
                assert(self.fails(results, i as int));
            } else {
                assert(!self.fails(results, i as int));
            }
            i += 1;
        }
        if fail {
            return Ok(
                IndriExplanations::NotMatched(
                    Explanation::no_match(
                        "Failure to meet condition(s) of required/prohibited clause(s)".to_owned(),
                        subs,
                    ),
                ),
            );
        }
        Ok(IndriExplanations::Matched(subs))
    }

    /// Explains the score of a document, or that it has none.
    pub fn explain_score(&self, score: Option<i32>, subs: Vec<Explanation>) -> (r: Explanation)
        ensures
            r.details == subs,
            match score {
                Some(value) => r.is_match && r.value == value && r.description@ == "sum of:"@,
                None => !r.is_match && r.value == 0 && r.description@ == failure_text(),
            },
    {
        match score {
            Some(value) => Explanation::matched(value, "sum of:".to_owned(), subs),
            None => Explanation::no_match(
                "Failure to meet condition(s) of required/prohibited clause(s)".to_owned(),
                subs,
            ),
        }
    }
}

} // verus!
