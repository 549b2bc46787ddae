//! Queries whose score is the greatest of the scores of their clauses.

use std::sync::Arc;

use vstd::prelude::*;
use vstd::string::*;

use crate::error::LuceneError;
use crate::search::bulk_scorer::BulkScorer;
use crate::search::disjunction_max_bulk_scorer::{nonnegative, DisjunctionMaxBulkScorer};
use crate::search::explanation::Explanation;
use crate::search::index_searcher::{
    IndexSearcher, LeafReaderContext, NumClausesCheckVisitor, Query, QueryCache, SearchableQuery,
};
use crate::search::query::{equal_queries, joined, same_queries, QueryKind, QueryNode};
use crate::search::score_mode::ScoreMode;
use crate::search::scorer_supplier::ScorerSupplier;
use crate::search::weight::ClauseWeight;
use crate::util::text::decimal_int;

verus! {

/// The number of clauses above which the matches are not cached.
pub const BOOLEAN_REWRITE_TERM_COUNT_THRESHOLD: usize = 16;

/// The factor 0, as an integer that is ordered like it.
pub const NO_TIE_BREAKER: i32 = 0;

/// The factor 1, as an integer that is ordered like it.
pub const FULL_TIE_BREAKER: i32 = 0x3f80_0000;

/// The factor with which the scores of the other clauses are added to the greatest
/// one: an integer that is ordered like it, unless it is not a number.
#[derive(Debug, Clone, Copy, PartialEq, Eq, Structural)]
pub enum TieBreaker {
    /// A number.
    Factor(i32),
    /// Not a number.
    NotANumber,
}

impl TieBreaker {
    /// Whether the factor is equal to `x`, which nothing is that is not a number.
    pub open spec fn equals(self, x: TieBreaker) -> bool {
        self == x && self is Factor
    }

    /// Returns whether the factor is equal to `x`.
    pub fn is_equal(self, x: TieBreaker) -> (r: bool)
        ensures
            r == self.equals(x),
    {
        match (self, x) {
            (TieBreaker::Factor(a), TieBreaker::Factor(b)) => a == b,
            _ => false,
        }
    }
}

/// Matches the documents of all its clauses, and scores them by the greatest of
/// the scores of the clauses.
pub struct DisjunctionMaxQuery<Q> {
    /// The clauses.
    pub disjuncts: Vec<Arc<Q>>,
    /// The factor with which the scores of the other clauses are added.
    pub tie_breaker_multiplier: TieBreaker,
}

/// What a [`DisjunctionMaxQuery`] is rewritten to.
pub enum RewrittenDisjunction<Q> {
    /// A query that matches no document, for the given reason.
    MatchNoDocs(String),
    /// Another query.
    Query(Arc<Q>),
    /// A boolean query of clauses that should match.
    Should(Vec<Arc<Q>>),
    /// A query of other clauses.
    DisjunctionMax(DisjunctionMaxQuery<Q>),
}

/// What a clause is rewritten to: itself when it stays as it is.
pub open spec fn form_of<Q: Query>(q: Q) -> Q {
    match q.next_form() {
        Some(next) => next,
        None => q,
    }
}

/// What the first `n` clauses are rewritten to, without those that match nothing.
pub open spec fn kept_forms<Q: QueryNode>(queries: Seq<Arc<Q>>, n: int) -> Seq<Arc<Q>>
    decreases n,
{
    if n <= 0 {
        Seq::empty()
    } else {
        let form = form_of(*queries[n - 1]);
        if form.node_kind() == QueryKind::MatchNoDocs {
            kept_forms(queries, n - 1)
        } else {
            kept_forms(queries, n - 1).push(Arc::new(form))
        }
    }
}

/// Whether rewriting changes a clause, or shows that it matches nothing.
pub open spec fn is_changed<Q: QueryNode>(q: Q) -> bool {
    q.next_form() is Some || form_of(q).node_kind() == QueryKind::MatchNoDocs
}

/// The number of clauses of the first `n` queries, the nested ones included.
pub open spec fn total_clauses<Q: Query>(queries: Seq<Arc<Q>>, n: int) -> nat
    decreases n,
{
    if n <= 0 {
        0
    } else {
        total_clauses(queries, n - 1) + queries[n - 1].num_clauses()
    }
}

impl<Q: QueryNode> DisjunctionMaxQuery<Q> {
    /// Shows the clauses of all queries to a visitor.
    pub fn visit(&self, visitor: &mut NumClausesCheckVisitor)
        requires
            old(visitor).wf(),
        ensures
            final(visitor).wf(),
            final(visitor).limit() == old(visitor).limit(),
            final(visitor).visits() == old(visitor).visits() + total_clauses(
                self.disjuncts@,
                self.disjuncts@.len() as int,
            ),
    {
        let mut i: usize = 0;
        while i < self.disjuncts.len()
            invariant
                i <= self.disjuncts@.len(),
                visitor.wf(),
                visitor.limit() == old(visitor).limit(),
                visitor.visits() == old(visitor).visits() + total_clauses(
                    self.disjuncts@,
                    i as int,
                ),
            decreases self.disjuncts.len() - i,
        {
            self.disjuncts[i].visit(visitor);
            i += 1;
        }
    }

    /// Returns the hash of the query, for the hash of its type, the bits of the factor and
    /// the hash of the clauses.
    pub fn query_hash(&self, class_hash: u64, tie_breaker_bits: u32, disjuncts_hash: u64) -> (r:
        u64)
        ensures
            r == class_hash.wrapping_mul(31).wrapping_add(tie_breaker_bits as u64).wrapping_mul(
                31,
            ).wrapping_add(disjuncts_hash),
    {
        let h: u64 = class_hash.wrapping_mul(31).wrapping_add(tie_breaker_bits as u64);
        h.wrapping_mul(31).wrapping_add(disjuncts_hash)
    }

    /// What [`Self::rewrite`] returns; `None` when the query stays as it is.
    pub open spec fn rewrites_to(self, r: Option<RewrittenDisjunction<Q>>) -> bool {
        let clauses = self.disjuncts@;
        let n = clauses.len() as int;
        let kept = kept_forms(clauses, n);
        if n == 0 {
            r matches Some(RewrittenDisjunction::MatchNoDocs(reason)) && reason@
                == "empty DisjunctionMaxQuery"@
        } else if n == 1 {
            r == Some(RewrittenDisjunction::Query(clauses[0]))
        } else if self.tie_breaker_multiplier == TieBreaker::Factor(FULL_TIE_BREAKER) {
            r matches Some(RewrittenDisjunction::Should(list)) && list@ == clauses
        } else if forall|i: int| 0 <= i < n ==> !is_changed(*#[trigger] clauses[i]) {
            r is None
        } else if kept.len() == 0 {
            r matches Some(RewrittenDisjunction::MatchNoDocs(reason)) && reason@
                == "empty DisjunctionMaxQuery"@
        } else if kept.len() == 1 {
            r == Some(RewrittenDisjunction::Query(kept[0]))
        } else {
            r matches Some(RewrittenDisjunction::DisjunctionMax(q)) && q.disjuncts@ == kept
                && q.tie_breaker_multiplier == self.tie_breaker_multiplier
        }
    }

    /// Creates a query of the given clauses.
    ///
    /// # Errors
    ///
    /// [`LuceneError::IllegalArgument`] if the factor is less than 0 or greater
    /// than 1.
    pub fn new(disjuncts: Vec<Arc<Q>>, tie_breaker_multiplier: TieBreaker) -> (r: Result<
        Self,
        LuceneError,
    >)
        ensures
            r is Err <==> (tie_breaker_multiplier matches TieBreaker::Factor(x) && (x
                < NO_TIE_BREAKER || x > FULL_TIE_BREAKER)),
            r matches Err(e) ==> e.is_illegal_argument("tieBreakerMultiplier must be in [0, 1]"@),
            r matches Ok(q) ==> q.disjuncts == disjuncts && q.tie_breaker_multiplier
                == tie_breaker_multiplier,
    {
        match tie_breaker_multiplier {
            TieBreaker::Factor(x) => {
                if x < NO_TIE_BREAKER || x > FULL_TIE_BREAKER {
                    return Err(
                        LuceneError::IllegalArgument(
                            "tieBreakerMultiplier must be in [0, 1]".to_owned(),
                        ),
                    );
                }
            },
            TieBreaker::NotANumber => {},
        }
        Ok(DisjunctionMaxQuery { disjuncts, tie_breaker_multiplier })
    }

    /// Returns the clauses.
    pub fn get_disjuncts(&self) -> (r: &Vec<Arc<Q>>)
        ensures
            *r == self.disjuncts,
    {
        &self.disjuncts
    }

    /// Returns the factor with which the scores of the other clauses are added.
    pub fn get_tie_breaker_multiplier(&self) -> (r: TieBreaker)
        ensures
            r == self.tie_breaker_multiplier,
    {
        self.tie_breaker_multiplier
    }

    /// Rewrites the query; `None` when it stays as it is.
    ///
    /// # Errors
    ///
    /// Whatever rewriting a clause fails with.
    pub fn rewrite(&self) -> (r: Result<Option<RewrittenDisjunction<Q>>, LuceneError>)
        requires
            self.tie_breaker_multiplier matches TieBreaker::Factor(x) ==> NO_TIE_BREAKER <= x
                <= FULL_TIE_BREAKER,
        ensures
            (forall|i: int|
                0 <= i < self.disjuncts@.len() ==> (#[trigger] self.disjuncts@[i]).infallible())
                ==> r is Ok,
            r matches Ok(rewritten) ==> self.rewrites_to(rewritten),
    {
        let n: usize = self.disjuncts.len();
        if n == 0 {
            return Ok(
                Some(RewrittenDisjunction::MatchNoDocs("empty DisjunctionMaxQuery".to_owned())),
            );
        }
        if n == 1 {
            return Ok(Some(RewrittenDisjunction::Query(Arc::clone(&self.disjuncts[0]))));
        }
        if self.tie_breaker_multiplier.is_equal(TieBreaker::Factor(FULL_TIE_BREAKER)) {
            let mut list: Vec<Arc<Q>> = Vec::with_capacity(n);
            let mut k: usize = 0;
            while k < n
                invariant
                    n == self.disjuncts@.len(),
                    k <= n,
                    list@ =~= self.disjuncts@.take(k as int),
                decreases n - k,
            {
                list.push(Arc::clone(&self.disjuncts[k]));
                k += 1;
            }
            assert(list@ =~= self.disjuncts@);
            return Ok(Some(RewrittenDisjunction::Should(list)));
        }
        let mut actually_rewritten: bool = false;
        let mut kept: Vec<Arc<Q>> = Vec::new();
        let mut i: usize = 0;
        while i < n
            invariant
                n == self.disjuncts@.len(),
                i <= n,
                kept@ == kept_forms(self.disjuncts@, i as int),
                actually_rewritten <==> exists|j: int|
                    0 <= j < i && is_changed(*#[trigger] self.disjuncts@[j]),
            decreases n - i,
        {
            let rewritten = self.disjuncts[i].rewrite()?;
            let changed: bool = rewritten.is_some();
            let form = match rewritten {
                Some(next) => Arc::new(next),
                None => Arc::clone(&self.disjuncts[i]),
            };
            let is_match_no_docs: bool = form.kind() == QueryKind::MatchNoDocs;
            if changed || is_match_no_docs {
                actually_rewritten = true;
                assert(is_changed(*self.disjuncts@[i as int]));
            }
            if !is_match_no_docs {
                kept.push(form);
            }
            i += 1;
        }
        if !actually_rewritten {
            return Ok(None);
        }
        if kept.len() == 0 {
            return Ok(
                Some(RewrittenDisjunction::MatchNoDocs("empty DisjunctionMaxQuery".to_owned())),
            );
        }
        if kept.len() == 1 {
            return Ok(Some(RewrittenDisjunction::Query(Arc::clone(&kept[0]))));
        }
        let q = DisjunctionMaxQuery::new(kept, self.tie_breaker_multiplier)?;
        Ok(Some(RewrittenDisjunction::DisjunctionMax(q)))
    }

    /// The rendering of a clause, with brackets around a boolean query.
    pub open spec fn clause_text(q: Q, field: Seq<char>) -> Seq<char> {
        if q.node_kind() == QueryKind::Boolean {
            "("@ + q.rendered(field) + ")"@
        } else {
            q.rendered(field)
        }
    }

    /// The renderings of the clauses.
    pub open spec fn clause_texts(self, field: Seq<char>) -> Seq<Seq<char>> {
        self.disjuncts@.map_values(|q: Arc<Q>| Self::clause_text(*q, field))
    }

    /// Renders the query. `tie_breaker_text` is the rendering of the factor, which
    /// is shown unless it is 0.
    pub fn to_query_string(&self, field: &str, tie_breaker_text: &str) -> (r: String)
        ensures
            r@ == "("@ + joined(
                self.clause_texts(field@),
                " | "@,
                self.disjuncts@.len() as int,
            ) + ")"@ + (if self.tie_breaker_multiplier == TieBreaker::Factor(NO_TIE_BREAKER) {
                Seq::<char>::empty()
            } else {
                "~"@ + tie_breaker_text@
            }),
    {
        let ghost texts = self.clause_texts(field@);
        let n: usize = self.disjuncts.len();
        let mut out = "(".to_owned();
        let mut i: usize = 0;
        assert(out@ =~= "("@ + joined(texts, " | "@, 0));
        while i < n
            invariant
                n == self.disjuncts@.len(),
                texts == self.clause_texts(field@),
                i <= n,
                out@ == "("@ + joined(texts, " | "@, i as int),
            decreases n - i,
        {
            let ghost before = out@;
            let q = &self.disjuncts[i];
            if i > 0 {
                out.append(" | ");
            }
            let ghost separated = out@;
            let text = q.to_query_string(field);
            if q.kind() == QueryKind::Boolean {
                out.append("(");
                out.append(text.as_str());
                out.append(")");
            } else {
                out.append(text.as_str());
            }
            proof {
                assert(texts[i as int] == Self::clause_text(*self.disjuncts@[i as int], field@));
                assert(out@ =~= separated + texts[i as int]);
                assert(out@ =~= "("@ + joined(texts, " | "@, i + 1));
            }
            i += 1;
        }
        out.append(")");
        if !self.tie_breaker_multiplier.is_equal(TieBreaker::Factor(NO_TIE_BREAKER)) {
            out.append("~");
            out.append(tie_breaker_text);
        }
        assert(out@ =~= "("@ + joined(texts, " | "@, n as int) + ")"@ + (
        if self.tie_breaker_multiplier == TieBreaker::Factor(NO_TIE_BREAKER) {
            Seq::<char>::empty()
        } else {
            "~"@ + tie_breaker_text@
        }));
        out
    }

    /// Returns whether two queries have the same factor and the same clauses, in
    /// any order.
    pub fn query_eq(&self, other: &Self) -> (r: bool)
        ensures
            r <==> self.tie_breaker_multiplier.equals(other.tie_breaker_multiplier)
                && same_queries(self.disjuncts@, other.disjuncts@),
    {
        self.tie_breaker_multiplier.is_equal(other.tie_breaker_multiplier) && equal_queries(
            &self.disjuncts,
            &other.disjuncts,
        )
    }
}

/// The sum of the costs of the first `n` clauses, which wraps around.
pub open spec fn summed_cost<P: ScorerSupplier>(suppliers: Seq<P>, n: int) -> i64
    decreases n,
{
    if n <= 0 {
        0
    } else {
        summed_cost(suppliers, n - 1).wrapping_add(suppliers[n - 1].reported_cost())
    }
}

/// How the matches of a disjunction are scored in bulk.
#[verifier::reject_recursive_types(B)]
pub enum DisjunctionBulk<S, B: BulkScorer> {
    /// By the greatest scores, without iterating over single documents.
    Max(DisjunctionMaxBulkScorer<B>),
    /// By iterating over the documents of the given clauses.
    Each(Vec<S>),
}

/// Provides iterators over the matches of several clauses in a leaf.
pub struct DisjunctionMaxScorerSupplier<P> {
    /// What provides the clauses.
    pub scorer_suppliers: Vec<P>,
    /// The factor with which the scores of the other clauses are added.
    pub tie_breaker_multiplier: TieBreaker,
    /// Which documents are visited, and whether with their scores.
    pub score_mode: ScoreMode,
}

/// Whether suppliers estimate the same numbers of matches.
pub open spec fn same_costs<P: ScorerSupplier>(a: Seq<P>, b: Seq<P>) -> bool {
    &&& a.len() == b.len()
    &&& forall|i: int|
        0 <= i < a.len() ==> (#[trigger] b[i]).reported_cost() == a[i].reported_cost()
}

impl<P: ScorerSupplier> DisjunctionMaxScorerSupplier<P> {
    /// Returns the iterators over the matches of the clauses.
    ///
    /// # Errors
    ///
    /// Whatever reading the leaf fails with.
    pub fn get(&mut self, lead_cost: i64) -> (r: Result<Vec<P::S>, LuceneError>)
        ensures
            (forall|i: int|
                0 <= i < old(self).scorer_suppliers@.len() ==> (#[trigger] old(
                    self,
                ).scorer_suppliers@[i]).infallible()) ==> r is Ok,
            same_costs(old(self).scorer_suppliers@, final(self).scorer_suppliers@),
            final(self).tie_breaker_multiplier == old(self).tie_breaker_multiplier,
            final(self).score_mode == old(self).score_mode,
            r matches Ok(scorers) ==> scorers@ == old(self).scorer_suppliers@.map_values(
                |p: P| p.supplied(lead_cost),
            ),
    {
        let ghost suppliers = self.scorer_suppliers@;
        let n: usize = self.scorer_suppliers.len();
        let mut scorers: Vec<P::S> = Vec::with_capacity(n);
        let mut i: usize = 0;
        while i < n
            invariant
                n == self.scorer_suppliers@.len(),
                n == suppliers.len(),
                i <= n,
                suppliers == old(self).scorer_suppliers@,
                self.tie_breaker_multiplier == old(self).tie_breaker_multiplier,
                self.score_mode == old(self).score_mode,
                same_costs(suppliers, self.scorer_suppliers@),
                forall|j: int| i <= j < n ==> #[trigger] self.scorer_suppliers@[j] == suppliers[j],
                scorers@ =~= suppliers.take(i as int).map_values(|p: P| p.supplied(lead_cost)),
            decreases n - i,
        {
            assert(self.scorer_suppliers@[i as int] == suppliers[i as int]);
            let scorer = self.scorer_suppliers[i].get(lead_cost)?;
            scorers.push(scorer);
            i += 1;
        }
        assert(suppliers.take(n as int) =~= suppliers);
        Ok(scorers)
    }

    /// Returns how the matches are scored in bulk: by the greatest scores when
    /// only those count and only the documents with the greatest ones are visited.
    ///
    /// # Errors
    ///
    /// Whatever reading the leaf fails with;
    /// [`LuceneError::IllegalArgument`] if there are fewer than two clauses.
    pub fn bulk_scorer(&mut self) -> (r: Result<DisjunctionBulk<P::S, P::B>, LuceneError>)
        requires
            2 * old(self).scorer_suppliers@.len() < usize::MAX,
        ensures
            ({
                let suppliers = old(self).scorer_suppliers@;
                let by_max = old(self).tie_breaker_multiplier == TieBreaker::Factor(NO_TIE_BREAKER)
                    && old(self).score_mode == ScoreMode::TOP_SCORES;
                &&& (forall|i: int| 0 <= i < suppliers.len() ==> (#[trigger] suppliers[i]).infallible())
                    && (by_max ==> suppliers.len() >= 2) ==> r is Ok
                &&& by_max && r is Ok ==> suppliers.len() >= 2
                &&& (forall|i: int| 0 <= i < suppliers.len() ==> (#[trigger] suppliers[i]).infallible())
                    && by_max && suppliers.len() < 2 ==> (r matches Err(e) && e.is_illegal_argument(
                    "Expected 2 or more bulk scorers, got "@ + decimal_int(suppliers.len() as int),
                ))
                &&& same_costs(suppliers, final(self).scorer_suppliers@)
                &&& final(self).tie_breaker_multiplier == old(self).tie_breaker_multiplier
                &&& final(self).score_mode == old(self).score_mode
                &&& r matches Ok(DisjunctionBulk::Max(b)) ==> {
                    &&& by_max
                    &&& b.inv()
                    &&& b.remaining()
                        == crate::search::disjunction_max_bulk_scorer::greatest_scores(
                        suppliers.map_values(|p: P| p.bulk_supplied().remaining()),
                    )
                }
                &&& r matches Ok(DisjunctionBulk::Each(scorers)) ==> !by_max && scorers@
                    == suppliers.map_values(|p: P| p.supplied(i64::MAX))
            }),
    {
        let by_max: bool = self.tie_breaker_multiplier.is_equal(TieBreaker::Factor(NO_TIE_BREAKER))
            && self.score_mode == ScoreMode::TOP_SCORES;
        if !by_max {
            let scorers = self.get(i64::MAX)?;
            return Ok(DisjunctionBulk::Each(scorers));
        }
        let ghost suppliers = self.scorer_suppliers@;
        let n: usize = self.scorer_suppliers.len();
        let mut scorers: Vec<P::B> = Vec::with_capacity(n);
        let mut i: usize = 0;
        while i < n
            invariant
                n == self.scorer_suppliers@.len(),
                n == suppliers.len(),
                i <= n,
                suppliers == old(self).scorer_suppliers@,
                same_costs(suppliers, self.scorer_suppliers@),
                self.tie_breaker_multiplier == old(self).tie_breaker_multiplier,
                self.score_mode == old(self).score_mode,
                forall|j: int| i <= j < n ==> #[trigger] self.scorer_suppliers@[j] == suppliers[j],
                scorers@ =~= suppliers.take(i as int).map_values(|p: P| p.bulk_supplied()),
                forall|j: int|
                    0 <= j < i ==> {
                        &&& (#[trigger] scorers@[j]).inv()
                        &&& nonnegative(scorers@[j].remaining())
                        &&& forall|d: int| #[trigger]
                            scorers@[j].remaining().dom().contains(d) ==> d >= 0
                    },
            decreases n - i,
        {
            assert(self.scorer_suppliers@[i as int] == suppliers[i as int]);
            let scorer = self.scorer_suppliers[i].bulk_scorer()?;
            scorers.push(scorer);
            i += 1;
        }
        let ghost all = scorers@;
        assert(all.map_values(|s: P::B| s.remaining()) =~= suppliers.map_values(
            |p: P| p.bulk_supplied().remaining(),
        ));
        let bulk = DisjunctionMaxBulkScorer::new(scorers)?;
        Ok(DisjunctionBulk::Max(bulk))
    }

    /// Returns the estimated number of matches.
    pub fn cost(&self) -> (r: i64)
        ensures
            r == summed_cost(self.scorer_suppliers@, self.scorer_suppliers@.len() as int),
    {
        let mut cost: i64 = 0;
        let mut i: usize = 0;
        while i < self.scorer_suppliers.len()
            invariant
                i <= self.scorer_suppliers@.len(),
                cost == summed_cost(self.scorer_suppliers@, i as int),
            decreases self.scorer_suppliers.len() - i,
        {
            cost = cost.wrapping_add(self.scorer_suppliers[i].cost());
            i += 1;
        }
        cost
    }

    /// Tells the clauses that their scores alone decide which documents are hits,
    /// when only the greatest one counts.
    ///
    /// # Errors
    ///
    /// Whatever reading the leaf fails with.
    pub fn set_top_level_scoring_clause(&mut self) -> (r: Result<(), LuceneError>)
        ensures
            (forall|i: int|
                0 <= i < old(self).scorer_suppliers@.len() ==> (#[trigger] old(
                    self,
                ).scorer_suppliers@[i]).infallible()) ==> r is Ok,
            final(self).tie_breaker_multiplier == old(self).tie_breaker_multiplier,
            final(self).score_mode == old(self).score_mode,
            same_costs(old(self).scorer_suppliers@, final(self).scorer_suppliers@),
            old(self).tie_breaker_multiplier != TieBreaker::Factor(NO_TIE_BREAKER) ==> r is Ok
                && *final(self) == *old(self),
            old(self).tie_breaker_multiplier == TieBreaker::Factor(NO_TIE_BREAKER) && r is Ok
                ==> forall|i: int|
                0 <= i < final(self).scorer_suppliers@.len() ==> (
                #[trigger] final(self).scorer_suppliers@[i]).top_level(),
    {
        if !self.tie_breaker_multiplier.is_equal(TieBreaker::Factor(NO_TIE_BREAKER)) {
            return Ok(());
        }
        let n: usize = self.scorer_suppliers.len();
        let mut i: usize = 0;
        while i < n
            invariant
                same_costs(old(self).scorer_suppliers@, self.scorer_suppliers@),
                n == self.scorer_suppliers@.len(),
                n == old(self).scorer_suppliers@.len(),
                i <= n,
                old(self).tie_breaker_multiplier == TieBreaker::Factor(NO_TIE_BREAKER),
                self.tie_breaker_multiplier == old(self).tie_breaker_multiplier,
                self.score_mode == old(self).score_mode,
                forall|j: int|
                    i <= j < n ==> #[trigger] self.scorer_suppliers@[j] == old(
                        self,
                    ).scorer_suppliers@[j],
                forall|j: int| 0 <= j < i ==> (#[trigger] self.scorer_suppliers@[j]).top_level(),
            decreases n - i,
        {
            assert(self.scorer_suppliers@[i as int] == old(self).scorer_suppliers@[i as int]);
            self.scorer_suppliers[i].set_top_level_scoring_clause()?;
            i += 1;
        }
        Ok(())
    }
}

/// Whether `e` is what the first result that is not one failed with.
pub open spec fn is_first_error<T>(results: Seq<Result<T, LuceneError>>, e: LuceneError) -> bool {
    exists|i: int|
        0 <= i < results.len() && #[trigger] results[i] == Err::<T, LuceneError>(e) && forall|j: int|
            0 <= j < i ==> #[trigger] results[j] is Ok
}

/// What a [`DisjunctionMaxQuery`] is prepared as.
pub struct DisjunctionMaxWeight<W> {
    /// What the clauses are prepared as.
    pub weights: Vec<Arc<W>>,
    /// The factor with which the scores of the other clauses are added.
    pub tie_breaker_multiplier: TieBreaker,
    /// Which documents are visited, and whether with their scores.
    pub score_mode: ScoreMode,
}

/// What provides the matches of a disjunction in a leaf.
pub enum DisjunctionSupplier<P> {
    /// No clause matches.
    Nothing,
    /// One clause matches.
    One(P),
    /// Several clauses match.
    Many(DisjunctionMaxScorerSupplier<P>),
}

/// The values among the first `n` results.
pub open spec fn present<M>(results: Seq<Result<Option<M>, LuceneError>>, n: int) -> Seq<M>
    decreases n,
{
    if n <= 0 {
        Seq::empty()
    } else {
        match results[n - 1] {
            Ok(Some(m)) => present(results, n - 1).push(m),
            _ => present(results, n - 1),
        }
    }
}

/// Whether a matching clause is among the first `n` explanations.
pub open spec fn any_matched(results: Seq<Result<Explanation, LuceneError>>, n: int) -> bool {
    exists|i: int| 0 <= i < n && (#[trigger] results[i])->Ok_0.is_match
}

/// The explanations among the first `n` of the clauses that match.
pub open spec fn matching_parts(results: Seq<Result<Explanation, LuceneError>>, n: int) -> Seq<
    Explanation,
>
    decreases n,
{
    if n <= 0 {
        Seq::empty()
    } else if results[n - 1]->Ok_0.is_match {
        matching_parts(results, n - 1).push(results[n - 1]->Ok_0)
    } else {
        matching_parts(results, n - 1)
    }
}

/// What is known of a document before its score is computed.
pub enum ClauseExplanations {
    /// The explanations of the clauses that match the document.
    Matched(Vec<Explanation>),
    /// The explanation of why the document does not match.
    NotMatched(Explanation),
}

/// The scores of the clauses that match a document. A score is an integer that is ordered
/// like it; that of zero is zero.
pub struct ScoreSplit {
    /// The greatest score; zero when all are less.
    pub max: i32,
    /// The scores that the tie breaker scales, in the order in which they are added up.
    pub others: Vec<i32>,
}

/// The greatest of the scores of the first `n` clauses, or zero, and the rest.
pub open spec fn split_of(details: Seq<Explanation>, n: int) -> (i32, Seq<i32>)
    decreases n,
{
    if n <= 0 {
        (0, Seq::empty())
    } else {
        let (max, others) = split_of(details, n - 1);
        let score = details[n - 1].value;
        if score >= max {
            (score, others.push(max))
        } else {
            (max, others.push(score))
        }
    }
}

/// The scores of the first `n` clauses.
pub open spec fn scores_of(details: Seq<Explanation>, n: int) -> Seq<i32> {
    Seq::new(n as nat, |i: int| details[i].value)
}

/// No score of a clause is lost, and none is counted twice: the greatest score and the
/// rest together are the scores of all clauses, and zero. No score is greater than the
/// greatest.
pub proof fn every_score_counts_once(details: Seq<Explanation>, n: int)
    requires
        0 <= n <= details.len(),
    ensures
        ({
            let (max, others) = split_of(details, n);
            &&& others.len() == n
            &&& others.to_multiset().insert(max) == scores_of(details, n).to_multiset().insert(0)
            &&& 0 <= max
            &&& forall|i: int| 0 <= i < n ==> (#[trigger] details[i]).value <= max
        }),
    decreases n,
{
    let scores = scores_of(details, n);
    if n == 0 {
        assert(scores =~= Seq::<i32>::empty());
    } else {
        every_score_counts_once(details, n - 1);
        let (max, others) = split_of(details, n - 1);
        let score = details[n - 1].value;
        let rest = scores_of(details, n - 1);
        assert(scores =~= rest.push(score));
        rest.to_multiset_ensures();
        others.to_multiset_ensures();
        assert(rest.push(score).to_multiset() =~= rest.to_multiset().insert(score));
        if score >= max {
            assert(others.push(max).to_multiset().insert(score)
                =~= others.to_multiset().insert(max).insert(score));
        } else {
            assert(others.push(score).to_multiset().insert(max)
                =~= others.to_multiset().insert(max).insert(score));
        }
        assert(rest.to_multiset().insert(score).insert(0)
            =~= rest.to_multiset().insert(0).insert(score));
    }
}

/// Parts the greatest of the scores of the matching clauses from those that the
/// tie breaker scales.
pub fn split_scores(details: &[Explanation]) -> (r: ScoreSplit)
    ensures
        (r.max, r.others@) == split_of(details@, details@.len() as int),
{
    let mut max: i32 = 0;
    let mut others: Vec<i32> = Vec::new();
    let mut i: usize = 0;
    while i < details.len()
        invariant
            i <= details@.len(),
            (max, others@) == split_of(details@, i as int),
        decreases details.len() - i,
    {
        let score: i32 = details[i].value;
        if score >= max {
            others.push(max);
            max = score;
        } else {
            others.push(score);
        }
        i += 1;
    }
    ScoreSplit { max, others }
}

impl<W: ClauseWeight> DisjunctionMaxWeight<W> {
    /// Prepares the clauses of a query for a search.
    ///
    /// # Errors
    ///
    /// Whatever reading the index fails with.
    pub fn new<Q, S, C, P, T, E>(
        query: &DisjunctionMaxQuery<Q>,
        searcher: &IndexSearcher<S, C, P, T, E>,
        score_mode: ScoreMode,
        boost: i32,
    ) -> (r: Result<Self, LuceneError>) where Q: SearchableQuery<W = W>, C: QueryCache<W, P>
        ensures
            (forall|i: int|
                0 <= i < query.disjuncts@.len() ==> (#[trigger] query.disjuncts@[i]).preparable())
                ==> r is Ok,
            r matches Ok(w) ==> {
                &&& w.weights@.len() == query.disjuncts@.len()
                &&& forall|i: int|
                    0 <= i < w.weights@.len() ==> *#[trigger] w.weights@[i] == searcher.prepared(
                        *query.disjuncts@[i],
                        score_mode,
                        boost,
                    )
                &&& w.tie_breaker_multiplier == query.tie_breaker_multiplier
                &&& w.score_mode == score_mode
            },
    {
        let n: usize = query.disjuncts.len();
        let mut weights: Vec<Arc<W>> = Vec::with_capacity(n);
        let mut i: usize = 0;
        while i < n
            invariant
                n == query.disjuncts@.len(),
                i <= n,
                weights@.len() == i,
                forall|j: int|
                    0 <= j < i ==> *#[trigger] weights@[j] == searcher.prepared(
                        *query.disjuncts@[j],
                        score_mode,
                        boost,
                    ),
            decreases n - i,
        {
            let weight = searcher.create_weight(&*query.disjuncts[i], score_mode, boost)?;
            weights.push(weight);
            i += 1;
        }
        Ok(
            DisjunctionMaxWeight {
                weights,
                tie_breaker_multiplier: query.tie_breaker_multiplier,
                score_mode,
            },
        )
    }

    /// Returns what the clauses are prepared as.
    pub fn weights(&self) -> (r: &Vec<Arc<W>>)
        ensures
            *r == self.weights,
    {
        &self.weights
    }

    /// Returns whether the matches in a leaf can be cached, which is so when those
    /// of all clauses can, and there are not too many.
    pub fn is_cacheable(&self, ctx: &LeafReaderContext) -> (r: bool)
        ensures
            r <==> self.weights@.len() <= BOOLEAN_REWRITE_TERM_COUNT_THRESHOLD && forall|i: int|
                0 <= i < self.weights@.len() ==> (#[trigger] self.weights@[i]).cacheable(*ctx),
    {
        if self.weights.len() > BOOLEAN_REWRITE_TERM_COUNT_THRESHOLD {
            return false;
        }
        let mut i: usize = 0;
        while i < self.weights.len()
            invariant
                i <= self.weights@.len(),
                forall|j: int| 0 <= j < i ==> (#[trigger] self.weights@[j]).cacheable(*ctx),
            decreases self.weights.len() - i,
        {
            if !self.weights[i].is_cacheable(ctx) {
                assert(!self.weights@[i as int].cacheable(*ctx));
                return false;
            }
            i += 1;
        }
        true
    }

    /// Returns the positions of the matches of the clauses that match a document.
    ///
    /// # Errors
    ///
    /// Whatever reading the leaf fails with.
    pub fn matches(&self, ctx: &LeafReaderContext, doc: i32) -> (r: Result<Vec<W::M>, LuceneError>)
        ensures
            ({
                let results = self.weights@.map_values(|w: Arc<W>| w.matched(*ctx, doc));
                &&& r is Ok <==> forall|i: int|
                    0 <= i < results.len() ==> #[trigger] results[i] is Ok
                &&& r matches Err(e) ==> is_first_error(results, e)
                &&& r matches Ok(list) ==> list@ == present(results, results.len() as int)
            }),
    {
        let ghost results = self.weights@.map_values(|w: Arc<W>| w.matched(*ctx, doc));
        let mut list: Vec<W::M> = Vec::new();
        let mut i: usize = 0;
        while i < self.weights.len()
            invariant
                i <= self.weights@.len(),
                results == self.weights@.map_values(|w: Arc<W>| w.matched(*ctx, doc)),
                forall|j: int| 0 <= j < i ==> #[trigger] results[j] is Ok,
                list@ == present(results, i as int),
            decreases self.weights.len() - i,
        {
            let found = self.weights[i].matches(ctx, doc);
            assert(results[i as int] == found);
            match found {
                Err(e) => {
                    assert(is_first_error(results, e));
                    return Err(e);
                },
                Ok(Some(m)) => {
                    list.push(m);
                },
                Ok(None) => {},
            }
            i += 1;
        }
        Ok(list)
    }

    /// Returns what provides the matches in a leaf.
    ///
    /// # Errors
    ///
    /// Whatever reading the leaf fails with.
    pub fn scorer_supplier(&self, ctx: &LeafReaderContext) -> (r: Result<
        DisjunctionSupplier<W::P>,
        LuceneError,
    >)
        ensures
            ({
                let results = self.weights@.map_values(|w: Arc<W>| w.supplier(*ctx));
                let found = present(results, results.len() as int);
                &&& r is Ok <==> forall|i: int|
                    0 <= i < results.len() ==> #[trigger] results[i] is Ok
                &&& r matches Err(e) ==> is_first_error(results, e)
                &&& r matches Ok(s) ==> match s {
                    DisjunctionSupplier::Nothing => found.len() == 0,
                    DisjunctionSupplier::One(p) => found == seq![p],
                    DisjunctionSupplier::Many(many) => {
                        &&& found.len() >= 2
                        &&& many.scorer_suppliers@ == found
                        &&& many.tie_breaker_multiplier == self.tie_breaker_multiplier
                        &&& many.score_mode == self.score_mode
                    },
                }
            }),
    {
        let ghost results = self.weights@.map_values(|w: Arc<W>| w.supplier(*ctx));
        let mut list: Vec<W::P> = Vec::new();
        let mut i: usize = 0;
        while i < self.weights.len()
            invariant
                i <= self.weights@.len(),
                results == self.weights@.map_values(|w: Arc<W>| w.supplier(*ctx)),
                forall|j: int| 0 <= j < i ==> #[trigger] results[j] is Ok,
                list@ == present(results, i as int),
            decreases self.weights.len() - i,
        {
            let found = self.weights[i].scorer_supplier(ctx);
            assert(results[i as int] == found);
            match found {
                Err(e) => {
                    assert(is_first_error(results, e));
                    return Err(e);
                },
                Ok(Some(p)) => {
                    list.push(p);
                },
                Ok(None) => {},
            }
            i += 1;
        }
        if list.len() == 0 {
            return Ok(DisjunctionSupplier::Nothing);
        }
        if list.len() == 1 {
            let ghost found = list@;
            match list.pop() {
                Some(p) => {
                    assert(found =~= seq![p]);
                    return Ok(DisjunctionSupplier::One(p));
                },
                None => {
                    return Ok(DisjunctionSupplier::Nothing);
                },
            }
        }
        Ok(
            DisjunctionSupplier::Many(
                DisjunctionMaxScorerSupplier {
                    scorer_suppliers: list,
                    tie_breaker_multiplier: self.tie_breaker_multiplier,
                    score_mode: self.score_mode,
                },
            ),
        )
    }

    /// Returns the explanations of the clauses: those of the matching ones, or all
    /// when no clause matches.
    ///
    /// # Errors
    ///
    /// Whatever reading the leaf fails with.
    pub fn explain_clauses(&self, ctx: &LeafReaderContext, doc: i32) -> (r: Result<
        ClauseExplanations,
        LuceneError,
    >)
        ensures
            ({
                let results = self.weights@.map_values(|w: Arc<W>| w.explained(*ctx, doc));
                let n = results.len() as int;
                &&& r is Ok <==> forall|i: int| 0 <= i < n ==> #[trigger] results[i] is Ok
                &&& r matches Err(e) ==> is_first_error(results, e)
                &&& r matches Ok(ClauseExplanations::Matched(list)) ==> any_matched(results, n)
                    && list@ == matching_parts(results, n)
                &&& r matches Ok(ClauseExplanations::NotMatched(e)) ==> {
                    &&& !any_matched(results, n)
                    &&& !e.is_match
                    &&& e.value == 0
                    &&& e.description@ == "No matching clause"@
                    &&& e.details@ == results.map_values(|x: Result<Explanation, LuceneError>| x->Ok_0)
                }
            }),
    {
        let ghost results = self.weights@.map_values(|w: Arc<W>| w.explained(*ctx, doc));
        let mut matched: bool = false;
        let mut subs_on_match: Vec<Explanation> = Vec::new();
        let mut subs_on_no_match: Vec<Explanation> = Vec::new();
        let mut i: usize = 0;
        while i < self.weights.len()
            invariant
                i <= self.weights@.len(),
                results == self.weights@.map_values(|w: Arc<W>| w.explained(*ctx, doc)),
                forall|j: int| 0 <= j < i ==> #[trigger] results[j] is Ok,
                matched == any_matched(results, i as int),
                subs_on_match@ == matching_parts(results, i as int),
                !matched ==> subs_on_no_match@ =~= results.take(i as int).map_values(
                    |x: Result<Explanation, LuceneError>| x->Ok_0,
                ),
            decreases self.weights.len() - i,
        {
            let explained = self.weights[i].explain(ctx, doc);
            assert(results[i as int] == explained);
            match explained {
                Err(e) => {
                    assert(is_first_error(results, e));
                    return Err(e);
                },
                Ok(e) => {
                    if e.is_match {
                        matched = true;
                        subs_on_match.push(e);
                    } else if !matched {
                        subs_on_no_match.push(e);
                    }
                },
            }
            i += 1;
        }
        if matched {
            Ok(ClauseExplanations::Matched(subs_on_match))
        } else {
            assert(results.take(i as int) =~= results);
            Ok(
                ClauseExplanations::NotMatched(
                    Explanation::no_match("No matching clause".to_owned(), subs_on_no_match),
                ),
            )
        }
    }

    /// Explains the score of a document that matches. `tie_breaker_text` is the
    /// rendering of the factor.
    pub fn explain_match(
        &self,
        score: i32,
        tie_breaker_text: &str,
        details: Vec<Explanation>,
    ) -> (r: Explanation)
        ensures
            r.is_match,
            r.value == score,
            r.details == details,
            r.description@ == if self.tie_breaker_multiplier == TieBreaker::Factor(NO_TIE_BREAKER) {
                "max of:"@
            } else {
                "max plus "@ + tie_breaker_text@ + " times others of:"@
            },
    {
        if self.tie_breaker_multiplier.is_equal(TieBreaker::Factor(NO_TIE_BREAKER)) {
            return Explanation::matched(score, "max of:".to_owned(), details);
        }
        let mut text = "max plus ".to_owned();
        text.append(tie_breaker_text);
        text.append(" times others of:");
        Explanation::matched(score, text, details)
    }
}

/// The values of the results are kept in order, and nothing else is.
pub proof fn present_values_are_kept<M>(results: Seq<Result<Option<M>, LuceneError>>, n: int)
    requires
        0 <= n <= results.len(),
    ensures
        present(results, n) == results.take(n).filter(
            |r: Result<Option<M>, LuceneError>| r is Ok && r->Ok_0 is Some,
        ).map_values(|r: Result<Option<M>, LuceneError>| r->Ok_0->0),
    decreases n,
{
    reveal(Seq::filter);
    if n > 0 {
        present_values_are_kept(results, n - 1);
        assert(results.take(n).drop_last() =~= results.take(n - 1));
    }
    assert(present(results, n) =~= results.take(n).filter(
        |r: Result<Option<M>, LuceneError>| r is Ok && r->Ok_0 is Some,
    ).map_values(|r: Result<Option<M>, LuceneError>| r->Ok_0->0));
}

/// The explanations of clauses that match are kept in order, and no others are.
pub proof fn matching_explanations_are_kept(
    results: Seq<Result<Explanation, LuceneError>>,
    n: int,
)
    requires
        0 <= n <= results.len(),
    ensures
        matching_parts(results, n) == results.take(n).filter(
            |r: Result<Explanation, LuceneError>| r->Ok_0.is_match,
        ).map_values(|r: Result<Explanation, LuceneError>| r->Ok_0),
        any_matched(results, n) <==> matching_parts(results, n).len() > 0,
    decreases n,
{
    reveal(Seq::filter);
    if n > 0 {
        matching_explanations_are_kept(results, n - 1);
        assert(results.take(n).drop_last() =~= results.take(n - 1));
        if any_matched(results, n - 1) {
            let i = choose|i: int| 0 <= i < n - 1 && (#[trigger] results[i])->Ok_0.is_match;
            assert(results[i]->Ok_0.is_match);
        }
    }
    assert(matching_parts(results, n) =~= results.take(n).filter(
        |r: Result<Explanation, LuceneError>| r->Ok_0.is_match,
    ).map_values(|r: Result<Explanation, LuceneError>| r->Ok_0));
}

/// The clauses of queries are counted query by query.
pub proof fn clauses_add_up<Q: Query>(queries: Seq<Arc<Q>>, k: int, n: int)
    requires
        0 <= k <= n <= queries.len(),
    ensures
        total_clauses(queries, 0) == 0,
        n > 0 ==> total_clauses(queries, 1) == queries[0].num_clauses(),
        total_clauses(queries, n) == total_clauses(queries, k) + total_clauses(
            queries.skip(k),
            n - k,
        ),
    decreases n,
{
    reveal_with_fuel(total_clauses, 2);
    if k < n {
        clauses_add_up(queries, k, n - 1);
        assert(queries.skip(k)[n - k - 1] == queries[n - 1]);
    }
}

/// What a clause is rewritten to.
spec fn clause_form<Q: QueryNode>(queries: Seq<Arc<Q>>, i: int) -> Q {
    form_of(*queries[i])
}

/// What is kept finds the documents of the clauses that match some.
proof fn lemma_kept_forms<Q: QueryNode>(
    queries: Seq<Arc<Q>>,
    n: int,
    found: spec_fn(Q) -> Set<int>,
    d: int,
)
    requires
        0 <= n <= queries.len(),
    ensures
        forall|i: int|
            0 <= i < kept_forms(queries, n).len() ==> (#[trigger] kept_forms(
                queries,
                n,
            )[i]).node_kind() != QueryKind::MatchNoDocs,
        (exists|i: int|
            0 <= i < kept_forms(queries, n).len() && #[trigger] found(
                *kept_forms(queries, n)[i],
            ).contains(d)) <==> (exists|i: int|
            0 <= i < n && (#[trigger] queries[i]) == queries[i] && form_of(
                *queries[i],
            ).node_kind() != QueryKind::MatchNoDocs && found(form_of(*queries[i])).contains(d)),
    decreases n,
{
    if n > 0 {
        lemma_kept_forms(queries, n - 1, found, d);
        let before = kept_forms(queries, n - 1);
        let form = clause_form(queries, n - 1);
        let after = kept_forms(queries, n);
        if form.node_kind() != QueryKind::MatchNoDocs {
            assert(after == before.push(Arc::new(form)));
            assert(after[before.len() as int] == Arc::new(form));
            assert forall|i: int| 0 <= i < before.len() implies after[i] == before[i] by {}
            if exists|i: int| 0 <= i < before.len() && #[trigger] found(*before[i]).contains(d) {
                let i = choose|i: int|
                    0 <= i < before.len() && #[trigger] found(*before[i]).contains(d);
                assert(found(*after[i]).contains(d));
            }
            if exists|i: int| 0 <= i < after.len() && #[trigger] found(*after[i]).contains(d) {
                let i = choose|i: int|
                    0 <= i < after.len() && #[trigger] found(*after[i]).contains(d);
                if i < before.len() {
                    assert(found(*before[i]).contains(d));
                } else {
                    assert(queries[n - 1] == queries[n - 1]);
                }
            }
            if found(form).contains(d) {
                assert(found(*after[before.len() as int]).contains(d));
            }
        }
    }
}

impl<Q: QueryNode> DisjunctionMaxQuery<Q> {
    /// A disjunction is rewritten to what finds the same documents. `found` are the documents that
    /// a query finds; rewriting a clause keeps them, and a query that matches no documents finds
    /// none.
    pub proof fn rewriting_finds_the_same_documents(
        &self,
        r: Option<RewrittenDisjunction<Q>>,
        found: spec_fn(Q) -> Set<int>,
        d: int,
    )
        requires
            call_ensures(DisjunctionMaxQuery::<Q>::rewrite, (self,), Ok(r)),
            forall|q: Q| #[trigger] q.next_form() matches Some(next) ==> found(next) == found(q),
            forall|q: Q| #[trigger]
                q.node_kind() == QueryKind::MatchNoDocs ==> found(q) == Set::<int>::empty(),
        ensures
            r matches Some(rewritten) ==> ((exists|i: int|
                0 <= i < self.disjuncts@.len() && #[trigger] found(*self.disjuncts@[i]).contains(d))
                <==> match rewritten {
                RewrittenDisjunction::MatchNoDocs(_) => false,
                RewrittenDisjunction::Query(q) => found(*q).contains(d),
                RewrittenDisjunction::Should(list) => exists|i: int|
                    0 <= i < list@.len() && #[trigger] found(*list@[i]).contains(d),
                RewrittenDisjunction::DisjunctionMax(q) => exists|i: int|
                    0 <= i < q.disjuncts@.len() && #[trigger] found(*q.disjuncts@[i]).contains(d),
            }),
            r matches Some(RewrittenDisjunction::DisjunctionMax(q)) ==> q.tie_breaker_multiplier
                == self.tie_breaker_multiplier && q.disjuncts@.len() >= 2,
            r matches Some(RewrittenDisjunction::Should(list)) ==> self.tie_breaker_multiplier
                == TieBreaker::Factor(FULL_TIE_BREAKER),
            r is None ==> self.disjuncts@.len() >= 2 && forall|i: int|
                0 <= i < self.disjuncts@.len() ==> (#[trigger] self.disjuncts@[i]).next_form()
                    is None && self.disjuncts@[i].node_kind() != QueryKind::MatchNoDocs,
    {
        let clauses = self.disjuncts@;
        let n = clauses.len() as int;
        let kept = kept_forms(clauses, n);
        lemma_kept_forms(clauses, n, found, d);
        assert forall|i: int| 0 <= i < n implies found(form_of(*#[trigger] clauses[i])) == found(
            *clauses[i],
        ) by {
            assert(clauses[i].next_form() matches Some(next) ==> found(next) == found(*clauses[i]));
        }
        if exists|i: int| 0 <= i < n && #[trigger] found(*clauses[i]).contains(d) {
            let i = choose|i: int| 0 <= i < n && #[trigger] found(*clauses[i]).contains(d);
            assert(found(form_of(*clauses[i])).contains(d));
            assert(form_of(*clauses[i]).node_kind() != QueryKind::MatchNoDocs);
            assert(clauses[i] == clauses[i]);
            assert(exists|i: int|
                0 <= i < kept.len() && #[trigger] found(*kept[i]).contains(d));
        }
        if exists|i: int| 0 <= i < kept.len() && #[trigger] found(*kept[i]).contains(d) {
            let i = choose|i: int|
                0 <= i < n && (#[trigger] clauses[i]) == clauses[i] && form_of(
                    *clauses[i],
                ).node_kind() != QueryKind::MatchNoDocs && found(form_of(*clauses[i])).contains(d);
            assert(found(*clauses[i]).contains(d));
        }
        if kept.len() == 1 && n >= 2 {
            assert(found(*kept[0]).contains(d) ==> exists|i: int|
                0 <= i < kept.len() && #[trigger] found(*kept[i]).contains(d));
        }
        if n == 1 {
            assert(found(*clauses[0]).contains(d) ==> exists|i: int|
                0 <= i < n && #[trigger] found(*clauses[i]).contains(d));
        }
        if r is None {
            assert forall|i: int| 0 <= i < n implies (#[trigger] clauses[i]).next_form() is None
                && clauses[i].node_kind() != QueryKind::MatchNoDocs by {
                assert(!is_changed(*clauses[i]));
            }
        }
    }
}

} // verus!
