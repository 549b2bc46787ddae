//! Queries that give all their matches the same score.

use vstd::prelude::*;
use vstd::string::*;

use crate::error::LuceneError;
use crate::search::doc_id_set_iterator::NO_MORE_DOCS;
use crate::search::explanation::Explanation;
use crate::search::index_searcher::LeafReaderContext;
use crate::search::scorer::Scorer;
use crate::search::scorer_supplier::ScorerSupplier;
use crate::util::text::{append_signed, decimal_int};

verus! {

/// Whether the scorer matches `doc`.
///
/// # Errors
///
/// Whatever moving the scorer or confirming the document fails with.
pub fn matches_doc<S: Scorer>(scorer: Option<S>, doc: i32) -> (r: Result<bool, LuceneError>)
    requires
        0 <= doc < NO_MORE_DOCS,
        scorer matches Some(s) ==> s.inv() && s.view().valid() && s.view().ids.doc < doc,
    ensures
        (scorer matches Some(s) ==> s.infallible()) ==> r is Ok,
        r matches Ok(b) ==> b == (scorer matches Some(s) && s.view().hits.contains(doc as int)),
{
    match scorer {
        None => Ok(false),
        Some(scorer) => {
            let mut s = scorer;
            if s.advance_approximation(doc)? != doc {
                return Ok(false);
            }
            assert(s.view().ids.docs.contains(doc as int));
            if s.has_two_phase() {
                return s.matches();
            }
            Ok(true)
        },
    }
}

/// The matches that a supplier provides for a lead cost; none without a supplier.
pub open spec fn supplied_hits<P: ScorerSupplier>(supplier: Option<P>, lead_cost: i64) -> Set<int> {
    match supplier {
        Some(supplier) => supplier.supplied(lead_cost).view().hits,
        None => Set::empty(),
    }
}

/// Returns whether the scorer that is supplied for a lead cost matches `doc`; without a supplier,
/// none does.
///
/// # Errors
///
/// Whatever reading the leaf fails with.
fn supplied_matches_doc<P: ScorerSupplier>(
    supplier: Option<P>,
    lead_cost: i64,
    doc: i32,
) -> (r: Result<bool, LuceneError>)
    requires
        0 <= doc < NO_MORE_DOCS,
    ensures
        (supplier matches Some(p) ==> p.infallible()) ==> r is Ok,
        r matches Ok(b) ==> b == supplied_hits(supplier, lead_cost).contains(doc as int),
{
    match supplier {
        None => Ok(false),
        Some(supplier) => {
            let mut supplier = supplier;
            let scorer = supplier.get(lead_cost)?;
            matches_doc(Some(scorer), doc)
        },
    }
}

/// What a query that gives all its matches the same score has to provide.
pub trait ConstantScoreWeightImpl {
    /// Provides iterators over the matches.
    type P: ScorerSupplier;

    /// What [`Self::scorer_supplier`] returns.
    spec fn supplier(&self, context: LeafReaderContext) -> Result<Option<Self::P>, LuceneError>;

    /// What [`Self::is_cacheable`] returns.
    spec fn cacheable(&self, context: LeafReaderContext) -> bool;

    /// Returns what provides iterators over the matches in a leaf; `None` when there are none.
    ///
    /// # Errors
    ///
    /// Whatever reading the leaf fails with.
    fn scorer_supplier(&self, context: &LeafReaderContext) -> (r: Result<
        Option<Self::P>,
        LuceneError,
    >)
        ensures
            r == self.supplier(*context),
    ;

    /// Returns whether the matches in a leaf can be cached.
    fn is_cacheable(&self, context: &LeafReaderContext) -> (r: bool)
        ensures
            r == self.cacheable(*context),
    ;

    /// Returns the number of matches in a leaf; -1, unless the query knows it.
    ///
    /// # Errors
    ///
    /// Whatever reading the leaf fails with.
    fn count(&self, context: &LeafReaderContext) -> (r: Result<i32, LuceneError>)
        default_ensures
            r == Ok::<i32, LuceneError>(-1i32),
    {
        Ok(-1)
    }

    /// Returns whether a document of a leaf matches.
    ///
    /// # Errors
    ///
    /// Whatever reading the leaf fails with.
    fn matches(&self, context: &LeafReaderContext, doc: i32) -> (r: Result<bool, LuceneError>)
        requires
            0 <= doc < NO_MORE_DOCS,
        ensures
            match self.supplier(*context) {
                Err(e) => r == Err::<bool, LuceneError>(e),
                Ok(supplier) => {
                    &&& (supplier matches Some(p) ==> p.infallible()) ==> r is Ok
                    &&& r matches Ok(b) ==> b == supplied_hits(supplier, 1).contains(doc as int)
                },
            },
    {
        match self.scorer_supplier(context) {
            Err(e) => Err(e),
            Ok(supplier) => supplied_matches_doc(supplier, 1, doc),
        }
    }
}

/// A query that gives all its matches the same score.
///
/// The score is an integer that is ordered like it; its rendering is kept beside
/// it.
pub struct ConstantScoreWeight<I: ConstantScoreWeightImpl> {
    /// The rendering of the query.
    pub query: String,
    /// The score.
    pub score: i32,
    /// The rendering of the score; `None` for the score 1.
    pub score_text: Option<String>,
    /// What provides the matches.
    pub inner: I,
}

impl<I: ConstantScoreWeightImpl> ConstantScoreWeight<I> {
    /// Creates a query with the given score.
    pub fn new(query: String, score: i32, score_text: Option<String>, inner: I) -> (r: Self)
        ensures
            r.query == query,
            r.score == score,
            r.score_text == score_text,
            r.inner == inner,
    {
        ConstantScoreWeight { query, score, score_text, inner }
    }

    /// Returns the score.
    pub fn score(&self) -> (r: i32)
        ensures
            r == self.score,
    {
        self.score
    }

    /// Returns what provides the matches.
    pub fn inner(&self) -> (r: &I)
        ensures
            *r == self.inner,
    {
        &self.inner
    }

    /// Returns whether the matches in a leaf can be cached.
    pub fn is_cacheable(&self, context: &LeafReaderContext) -> (r: bool)
        ensures
            r == self.inner.cacheable(*context),
    {
        self.inner.is_cacheable(context)
    }

    /// Returns the number of matches in a leaf, as what provides them counts it; -1 when it is not
    /// known.
    ///
    /// # Errors
    ///
    /// Whatever reading the leaf fails with.
    pub fn count(&self, context: &LeafReaderContext) -> (r: Result<i32, LuceneError>)
        ensures
            call_ensures(I::count, (&self.inner, context), r),
    {
        self.inner.count(context)
    }

    /// Returns whether a document of a leaf matches.
    ///
    /// # Errors
    ///
    /// Whatever reading the leaf fails with.
    pub fn matches(&self, context: &LeafReaderContext, doc: i32) -> (r: Result<bool, LuceneError>)
        requires
            0 <= doc < NO_MORE_DOCS,
        ensures
            match self.inner.supplier(*context) {
                Err(e) => r == Err::<bool, LuceneError>(e),
                Ok(supplier) => {
                    &&& (supplier matches Some(p) ==> p.infallible()) ==> r is Ok
                    &&& r matches Ok(b) ==> b == supplied_hits(supplier, 1).contains(doc as int)
                },
            },
    {
        self.inner.matches(context, doc)
    }

    /// Whether `e` explains that `doc` matches, or that it does not match.
    pub open spec fn explained(&self, matched: bool, doc: i32, e: Explanation) -> bool {
        &&& e.details@.len() == 0
        &&& if matched {
            &&& e.is_match
            &&& e.value == self.score
            &&& e.description@ == self.query@ + match self.score_text {
                Some(text) => "^"@ + text@,
                None => Seq::<char>::empty(),
            }
        } else {
            &&& !e.is_match
            &&& e.value == 0
            &&& e.description@ == self.query@ + " doesn't match id "@ + decimal_int(doc as int)
        }
    }

    /// Returns what provides iterators over the matches in a leaf; `None` when there are none.
    ///
    /// # Errors
    ///
    /// Whatever reading the leaf fails with.
    pub fn scorer_supplier(&self, context: &LeafReaderContext) -> (r: Result<
        Option<I::P>,
        LuceneError,
    >)
        ensures
            r == self.inner.supplier(*context),
    {
        self.inner.scorer_supplier(context)
    }

    /// Explains why a document of a leaf matches, or does not match.
    ///
    /// # Errors
    ///
    /// Whatever reading the leaf fails with.
    pub fn explain(&self, context: &LeafReaderContext, doc: i32) -> (r: Result<
        Explanation,
        LuceneError,
    >)
        requires
            0 <= doc < NO_MORE_DOCS,
        ensures
            match self.inner.supplier(*context) {
                Err(e) => r == Err::<Explanation, LuceneError>(e),
                Ok(supplier) => {
                    &&& (supplier matches Some(p) ==> p.infallible()) ==> r is Ok
                    &&& r matches Ok(e) ==> self.explained(
                        supplied_hits(supplier, i64::MAX).contains(doc as int),
                        doc,
                        e,
                    )
                },
            },
    {
        let supplier = match self.inner.scorer_supplier(context) {
            Err(e) => {
                return Err(e);
            },
            Ok(supplier) => supplier,
        };
        let exists: bool = supplied_matches_doc(supplier, i64::MAX, doc)?;
        let mut text = self.query.as_str().to_owned();
        if exists {
            match &self.score_text {
                Some(score) => {
                    text.append("^");
                    text.append(score.as_str());
                    assert(text@ =~= self.query@ + ("^"@ + score@));
                },
                None => {
                    assert(text@ =~= self.query@ + Seq::<char>::empty());
                },
            }
            Ok(Explanation::matched(self.score, text, Vec::new()))
        } else {
            text.append(" doesn't match id ");
            append_signed(&mut text, doc as i64);
            Ok(Explanation::no_match(text, Vec::new()))
        }
    }
}

} // verus!
