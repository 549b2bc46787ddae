//! Iteration over the documents of all clauses, all of which have a part in the score.

use vstd::prelude::*;

use crate::error::LuceneError;
use crate::search::disi_wrapper::DisiWrapper;
use crate::search::disjunction_disi_approximation::{
    by_decreasing_cost, same_clauses, DisjunctionDISIApproximation,
};
use crate::search::doc_id_set_iterator::{DocIdSetIterator, DocIds};
use crate::search::indri_scorer::{IndriClause, IndriScorer};
use crate::search::scorer::{single_runs, Matching, Scorer};
use crate::util::fixed_bit_set::FixedBitSet;
use crate::util::sort::is_stable_order;

verus! {

/// Iterates over the documents of all clauses.
#[verifier::reject_recursive_types(S)]
pub struct IndriDisjunctionScorer<S: Scorer> {
    approximation: DisjunctionDISIApproximation<S>,
    boost: i32,
    confirmed: Ghost<Seq<int>>,
}

/// The documents that one of the scorers may match.
pub open spec fn all_docs<S: Scorer>(scorers: Seq<S>) -> Set<int> {
    Set::new(
        |d: int|
            exists|i: int|
                0 <= i < scorers.len() && #[trigger] scorers[i].view().ids.docs.contains(d),
    )
}

impl<S: Scorer> IndriDisjunctionScorer<S> {
    /// The iteration over the documents.
    pub closed spec fn approx(&self) -> DisjunctionDISIApproximation<S> {
        self.approximation
    }

    /// The boost, an integer that is ordered like it.
    pub closed spec fn own_boost(&self) -> i32 {
        self.boost
    }

    /// Creates an iterator over the documents of all clauses.
    pub fn new(sub_scorers_list: Vec<S>, boost: i32) -> (r: Self)
        requires
            0 < sub_scorers_list@.len() < i32::MAX,
            forall|i: int|
                0 <= i < sub_scorers_list@.len() ==> (#[trigger] sub_scorers_list@[i]).inv()
                    && sub_scorers_list@[i].view().ids.doc == -1,
        ensures
            r.own_boost() == boost,
            r.boost() == boost,
            r.inv(),
            r.view().ids == r.approx().view(),
            r.view().hits == r.approx().view().docs,
            r.approx().inv(),
            r.approx().view() == (DocIds { docs: all_docs(sub_scorers_list@), doc: -1 }),
            r.approx().clauses().len() == sub_scorers_list@.len(),
            r.approx().supplied_order().len() == sub_scorers_list@.len(),
            forall|i: int|
                0 <= i < sub_scorers_list@.len() ==> (#[trigger] r.approx().clauses()[
                r.approx().supplied_order()[i] as int]).scorer == sub_scorers_list@[i],
            r.approx().infallible() <==> forall|i: int|
                0 <= i < sub_scorers_list@.len()
                    ==> #[trigger] sub_scorers_list@[i].infallible(),
    {
        let ghost all = sub_scorers_list@;
        let mut wrappers: Vec<DisiWrapper<S>> = Vec::with_capacity(sub_scorers_list.len());
        for scorer in it: sub_scorers_list
            invariant
                it.seq() == all,
                forall|i: int| 0 <= i < all.len() ==> (#[trigger] all[i]).inv(),
                wrappers@.len() == it.index(),
                forall|i: int|
                    0 <= i < wrappers@.len() ==> (#[trigger] wrappers@[i]).inv()
                        && wrappers@[i].doc == -1 && wrappers@[i].scorer == all[i],
        {
            assert(all[it.index() as int].inv());
            wrappers.push(DisiWrapper::new(scorer, false));
        }
        let ghost subs = wrappers@;
        proof {
            assert forall|i: int| 0 <= i < subs.len() implies (
            #[trigger] subs[i]).scorer.view().ids.doc == -1 by {
                assert(all[i].view().ids.doc == -1);
            }
        }
        let approximation = DisjunctionDISIApproximation::new(wrappers, i64::MAX);
        proof {
            assert forall|d: int|
                #[trigger] approximation.view().docs.contains(d) == all_docs(all).contains(d) by {
                if approximation.view().docs.contains(d) {
                    let i = choose|i: int|
                        0 <= i < subs.len() && #[trigger] subs[i].scorer.view().ids.docs.contains(d);
                    assert(all[i].view().ids.docs.contains(d));
                }
                if all_docs(all).contains(d) {
                    let i = choose|i: int|
                        0 <= i < all.len() && #[trigger] all[i].view().ids.docs.contains(d);
                    assert(subs[i].scorer.view().ids.docs.contains(d));
                }
            }
            assert(approximation.view().docs =~= all_docs(all));
            let order = choose|order: Seq<usize>|
                #![trigger is_stable_order(by_decreasing_cost(subs), subs.len() as int, order)]
                {
                    &&& is_stable_order(by_decreasing_cost(subs), subs.len() as int, order)
                    &&& approximation.clauses() == Seq::new(
                        subs.len(),
                        |i: int| subs[order[i] as int],
                    )
                    &&& forall|i: int|
                        0 <= i < order.len()
                            ==> approximation.supplied_order()[#[trigger] order[i] as int] == i
                };
            assert forall|i: int| 0 <= i < all.len() implies (#[trigger] approximation.clauses()[
            approximation.supplied_order()[i] as int]).scorer == all[i] by {
                assert(order.contains(i as usize));
                let k = choose|k: int| 0 <= k < order.len() && order[k] == i;
                assert(approximation.supplied_order()[order[k] as int] == k);
            }
            if approximation.infallible() {
                assert forall|i: int| 0 <= i < all.len() implies #[trigger] all[i].infallible() by {
                    assert(subs[i].scorer.infallible());
                }
            }
            if forall|i: int| 0 <= i < all.len() ==> #[trigger] all[i].infallible() {
                assert forall|i: int| 0 <= i < subs.len() implies
                    #[trigger] subs[i].scorer.infallible() by {
                    assert(all[i].infallible());
                }
            }
        }
        IndriDisjunctionScorer { approximation, boost, confirmed: Ghost(Seq::empty()) }
    }

    /// Returns the clauses.
    pub fn get_sub_matches(&self) -> (r: &DisjunctionDISIApproximation<S>)
        ensures
            *r == self.approx(),
    {
        &self.approximation
    }

    /// Returns the greatest possible score up to a document, which is not known: 0, as an
    /// integer that is ordered like it.
    pub fn get_max_score(&self, up_to: i32) -> (r: i32)
        ensures
            r == 0,
    {
        0
    }
}

impl<S: Scorer> Scorer for IndriDisjunctionScorer<S> {
    open spec fn view(&self) -> Matching {
        Matching {
            ids: self.approx().view(),
            hits: self.approx().view().docs,
            two_phase: false,
            cost: self.approx().reported_cost(),
            match_cost: 0,
            runs: single_runs(false),
        }
    }

    open spec fn inv(&self) -> bool {
        self.approx().inv()
    }

    open spec fn infallible(&self) -> bool {
        self.approx().infallible()
    }

    closed spec fn confirmed(&self) -> Seq<int> {
        self.confirmed@
    }

    fn doc_id(&self) -> (r: i32) {
        self.approximation.doc_id()
    }

    fn next_approximation(&mut self) -> (r: Result<i32, LuceneError>)
        ensures
            final(self).own_boost() == old(self).own_boost(),
            r is Ok ==> same_clauses(old(self).approx().clauses(), final(self).approx().clauses())
                && final(self).approx().supplied_order() == old(self).approx().supplied_order(),
    {
        self.approximation.next_doc()
    }

    fn advance_approximation(&mut self, target: i32) -> (r: Result<i32, LuceneError>)
        ensures
            final(self).own_boost() == old(self).own_boost(),
            r is Ok ==> same_clauses(old(self).approx().clauses(), final(self).approx().clauses())
                && final(self).approx().supplied_order() == old(self).approx().supplied_order(),
    {
        self.approximation.advance(target)
    }

    fn load_approximation(
        &mut self,
        up_to: i32,
        bit_set: &mut FixedBitSet,
        offset: i32,
    ) -> (r: Result<(), LuceneError>)
        ensures
            final(self).own_boost() == old(self).own_boost(),
            r is Ok ==> same_clauses(old(self).approx().clauses(), final(self).approx().clauses())
                && final(self).approx().supplied_order() == old(self).approx().supplied_order(),
    {
        assert forall|d: int| #[trigger]
            self.approximation.view().docs.contains(d) && self.approximation.view().read_from()
                <= d < up_to implies 0 <= d - offset < bit_set@.len() && d - offset <= i32::MAX by {
            assert(self.view().ids.docs.contains(d));
        }
        self.approximation.into_bit_set(up_to, bit_set, offset)
    }

    fn cost(&self) -> (r: i64) {
        self.approximation.cost()
    }

    fn has_two_phase(&self) -> (r: bool) {
        false
    }

    fn match_cost(&self) -> (r: i32) {
        0
    }

    fn matches(&mut self) -> (r: Result<bool, LuceneError>)
        ensures
            final(self).own_boost() == old(self).own_boost(),
            final(self).approx() == old(self).approx(),
    {
        proof {
            self.confirmed@ = self.confirmed@.push(self.approximation.view().doc);
        }
        Ok(true)
    }

    fn hits_run_end(&self) -> (r: Result<i32, LuceneError>) {
        Ok(self.approximation.doc_id() + 1)
    }
}

impl<S: Scorer> IndriScorer for IndriDisjunctionScorer<S> {
    open spec fn boost(&self) -> i32 {
        self.own_boost()
    }

    fn get_boost(&self) -> (r: i32) {
        self.boost
    }
}

impl<S: Scorer> IndriClause for IndriDisjunctionScorer<S> {
    /// The boost; a clause that is such a scorer has a part in the score of another one.
    open spec fn indri_boost(&self) -> Option<i32> {
        Some(self.own_boost())
    }

    fn as_indri_scorer(&self) -> (r: Option<i32>) {
        Some(self.boost)
    }
}

} // verus!
