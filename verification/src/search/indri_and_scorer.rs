//! How the clauses of a query take part in the score of a document.

use vstd::prelude::*;

use crate::search::disjunction_disi_approximation::DisjunctionDISIApproximation;
use crate::search::doc_id_set_iterator::DocIdSetIterator;
use crate::search::indri_disjunction_scorer::IndriDisjunctionScorer;
use crate::search::indri_scorer::IndriClause;
use crate::search::scorer::Scorer;

verus! {

/// The part of a clause in the score of a document.
#[derive(Debug, Clone, Copy, PartialEq, Eq, Structural)]
pub struct ScorePart {
    /// The position of the clause.
    pub clause: usize,
    /// Whether the clause is on the document, so that its score counts; otherwise a smoothing
    /// score counts.
    pub on_document: bool,
    /// The boost of the clause, by which the score is multiplied.
    pub boost: i32,
}

/// Takes the mean of the scores of all clauses, weighted by their boosts.
#[derive(Debug, Clone, Copy)]
pub struct IndriAndScoring;

/// The parts of the first `n` clauses in the score of a document; clauses without a boost have
/// none.
pub open spec fn score_parts<S: IndriClause>(
    sub_scorers: DisjunctionDISIApproximation<S>,
    doc_id: i32,
    n: int,
) -> Seq<ScorePart>
    decreases n,
{
    if n <= 0 {
        Seq::empty()
    } else {
        let rest = score_parts(sub_scorers, doc_id, n - 1);
        let wrapper = sub_scorers.clauses()[sub_scorers.supplied_order()[n - 1] as int];
        match wrapper.scorer.indri_boost() {
            None => rest,
            Some(boost) => rest.push(
                ScorePart {
                    clause: (n - 1) as usize,
                    on_document: wrapper.scorer.view().ids.doc == doc_id,
                    boost,
                },
            ),
        }
    }
}

impl IndriAndScoring {
    /// Returns the parts of the clauses in the score of a document.
    pub fn score_doc<S: IndriClause>(
        &self,
        sub_scorers: &DisjunctionDISIApproximation<S>,
        doc_id: i32,
    ) -> (r: Vec<ScorePart>)
        requires
            sub_scorers.inv(),
        ensures
            r@ == score_parts(*sub_scorers, doc_id, sub_scorers.clauses().len() as int),
    {
        let n: usize = sub_scorers.len();
        let mut parts: Vec<ScorePart> = Vec::with_capacity(n);
        let mut i: usize = 0;
        while i < n
            invariant
                n == sub_scorers.clauses().len(),
                i <= n,
                sub_scorers.inv(),
                parts@ == score_parts(*sub_scorers, doc_id, i as int),
            decreases n - i,
        {
            let wrapper = sub_scorers.sub_scorer(i);
            match wrapper.scorer.as_indri_scorer() {
                None => {},
                Some(boost) => {
                    let doc: i32 = wrapper.approximation_doc_id();
                    parts.push(ScorePart { clause: i, on_document: doc == doc_id, boost });
                },
            }
            i += 1;
        }
        parts
    }
}

/// Creates an iterator over the documents of all clauses.
pub fn new_indri_and_scorer<S: IndriClause>(sub_scorers: Vec<S>, boost: i32) -> (r:
    IndriDisjunctionScorer<S>)
    requires
        0 < sub_scorers@.len() < i32::MAX,
        forall|i: int|
            0 <= i < sub_scorers@.len() ==> (#[trigger] sub_scorers@[i]).inv()
                && sub_scorers@[i].view().ids.doc == -1,
    ensures
        r.own_boost() == boost,
        r.approx().inv(),
        r.approx().view().doc == -1,
        r.approx().view().docs == crate::search::indri_disjunction_scorer::all_docs(sub_scorers@),
        r.inv(),
        r.approx().supplied_order().len() == sub_scorers@.len(),
        forall|i: int|
            0 <= i < sub_scorers@.len() ==> (#[trigger] r.approx().clauses()[
            r.approx().supplied_order()[i] as int]).scorer == sub_scorers@[i],
{
    IndriDisjunctionScorer::new(sub_scorers, boost)
}

} // verus!
