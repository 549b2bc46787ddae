//! Disjunctions whose score is the sum of the scores of the clauses that match.

use vstd::prelude::*;

use crate::error::LuceneError;
use crate::search::disi_wrapper::DisiWrapper;
use crate::search::disjunction_score_block_boundary_propagator::{ScoreBlocks, SubScorers};
use crate::search::disjunction_scorer::{asked_cheapest_first, ChildScorable, DisjunctionScorer};
use crate::search::disjunction_disi_approximation::{same_clauses, total_cost, wrap_by_cost};
use crate::search::doc_id_set_iterator::{is_first_from, NO_MORE_DOCS};
use crate::search::score_mode::ScoreMode;
use crate::search::scorer::{BlockScorer, Matching, Scorer};
use crate::util::fixed_bit_set::FixedBitSet;

verus! {

/// Whether a clause at or before `target` ends a block at `b`.
pub open spec fn clause_ends_at(blocks: ScoreBlocks, target: i32, i: int, b: int) -> bool {
    blocks.docs[i] <= target && b == (blocks.boundaries)(i, target)
}

/// Whether `b` is the least document at which one of the first `n` clauses that
/// are at or before `target` ends a block; all documents are in one block when
/// there is no such clause.
pub open spec fn is_least_end(blocks: ScoreBlocks, target: i32, n: int, b: int) -> bool {
    &&& b <= NO_MORE_DOCS
    &&& b == NO_MORE_DOCS || exists|i: int|
        0 <= i < n && #[trigger] clause_ends_at(blocks, target, i, b)
    &&& forall|i: int, c: int|
        0 <= i < n && #[trigger] clause_ends_at(blocks, target, i, c) ==> b <= c
}

/// What the clauses have been told to look ahead to, once the first `n` that are
/// at or before `target` have been told to look at it.
pub open spec fn shown_target(
    blocks: ScoreBlocks,
    before: Seq<Option<i32>>,
    target: i32,
    n: int,
) -> Seq<Option<i32>> {
    Seq::new(
        before.len(),
        |i: int|
            if i < n && blocks.docs[i] <= target {
                Some(target)
            } else {
                before[i]
            },
    )
}

/// Tells the clauses at or before `target` to look ahead to it, and returns the
/// last document up to which the greatest possible sum of scores stays as it is.
///
/// # Errors
///
/// Whatever reading the clauses fails with.
pub fn advance_shallow<X: SubScorers>(scorers: &mut X, target: i32) -> (r: Result<i32, LuceneError>)
    requires
        old(scorers).inv(),
    ensures
        old(scorers).infallible() ==> r is Ok,
        final(scorers).infallible() == old(scorers).infallible(),
        final(scorers).inv(),
        final(scorers).blocks() == old(scorers).blocks(),
        final(scorers).rest() == old(scorers).rest(),
        r matches Ok(up_to) ==> {
            let n = old(scorers).blocks().docs.len() as int;
            &&& is_least_end(old(scorers).blocks(), target, n, up_to as int)
            &&& final(scorers).looked_at() == shown_target(
                old(scorers).blocks(),
                old(scorers).looked_at(),
                target,
                n,
            )
        },
{
    let n: usize = scorers.len();
    let ghost blocks = scorers.blocks();
    let mut min: i32 = NO_MORE_DOCS;
    let mut i: usize = 0;
    assert(scorers.looked_at() =~= shown_target(blocks, scorers.looked_at(), target, 0));
    while i < n
        invariant
            n == blocks.docs.len(),
            n == old(scorers).looked_at().len(),
            i <= n,
            scorers.inv(),
            scorers.blocks() == blocks,
            scorers.rest() == old(scorers).rest(),
            blocks == old(scorers).blocks(),
            scorers.infallible() == old(scorers).infallible(),
            scorers.looked_at() == shown_target(
                blocks,
                old(scorers).looked_at(),
                target,
                i as int,
            ),
            is_least_end(blocks, target, i as int, min as int),
        decreases n - i,
    {
        if scorers.doc_id(i) <= target {
            let b: i32 = scorers.advance_shallow(i, target)?;
            assert(clause_ends_at(blocks, target, i as int, b as int));
            if b < min {
                min = b;
            }
        }
        assert(scorers.looked_at() =~= shown_target(
            blocks,
            old(scorers).looked_at(),
            target,
            i + 1,
        ));
        i += 1;
    }
    Ok(min)
}

/// The positions of those of the first `n` clauses that are at or before `up_to`.
pub open spec fn clauses_at_or_before(blocks: ScoreBlocks, up_to: i32, n: int) -> Seq<usize>
    decreases n,
{
    if n <= 0 {
        Seq::empty()
    } else if blocks.docs[n - 1] <= up_to {
        clauses_at_or_before(blocks, up_to, n - 1).push((n - 1) as usize)
    } else {
        clauses_at_or_before(blocks, up_to, n - 1)
    }
}

/// Returns the clauses that may match a document up to `up_to`. The greatest score up
/// to it is at most the sum of their greatest scores.
pub fn max_score_clauses<X: SubScorers>(scorers: &X, up_to: i32) -> (r: Vec<usize>)
    requires
        scorers.inv(),
    ensures
        r@ == clauses_at_or_before(
            scorers.blocks(),
            up_to,
            scorers.blocks().docs.len() as int,
        ),
{
    let n: usize = scorers.len();
    let mut clauses: Vec<usize> = Vec::new();
    let mut i: usize = 0;
    while i < n
        invariant
            n == scorers.blocks().docs.len(),
            i <= n,
            scorers.inv(),
            clauses@ == clauses_at_or_before(scorers.blocks(), up_to, i as int),
        decreases n - i,
    {
        if scorers.doc_id(i) <= up_to {
            clauses.push(i);
        }
        i += 1;
    }
    clauses
}

/// Iterates over the documents that match one clause at least, and scores them by
/// the sum of the scores of the clauses that match.
#[verifier::reject_recursive_types(S)]
pub struct DisjunctionSumScorer<S: Scorer> {
    base: DisjunctionScorer<S>,
}

impl<S: Scorer> DisjunctionSumScorer<S> {
    /// The iteration over the documents.
    pub closed spec fn base(&self) -> DisjunctionScorer<S> {
        self.base
    }

    /// Creates a scorer over the documents of all clauses.
    ///
    /// # Errors
    ///
    /// [`LuceneError::IllegalArgument`] with fewer than two clauses.
    pub fn new(
        sub_scorers: Vec<S>,
        score_mode: ScoreMode,
        lead_cost: i64,
        average_match_cost: i32,
    ) -> (r: Result<Self, LuceneError>)
        requires
            sub_scorers@.len() < i32::MAX,
            forall|i: int|
                0 <= i < sub_scorers@.len() ==> (#[trigger] sub_scorers@[i]).inv()
                    && sub_scorers@[i].view().ids.doc == -1,
        ensures
            r is Ok <==> sub_scorers@.len() >= 2,
            r matches Err(e) ==> e.is_illegal_argument("There must be at least 2 subScorers"@),
            r matches Ok(d) ==> {
                &&& d.inv()
                &&& d.view().ids.doc == -1
                &&& forall|doc: int| #[trigger]
                    d.view().ids.docs.contains(doc) <==> exists|i: int|
                        0 <= i < sub_scorers@.len()
                            && #[trigger] sub_scorers@[i].view().ids.docs.contains(doc)
                &&& forall|doc: int| #[trigger]
                    d.view().hits.contains(doc) <==> exists|i: int|
                        0 <= i < sub_scorers@.len()
                            && #[trigger] sub_scorers@[i].view().hits.contains(doc)
                &&& d.base().needs_scores() == (score_mode != ScoreMode::COMPLETE_NO_SCORES)
                &&& d.view().two_phase <==> exists|i: int|
                    0 <= i < sub_scorers@.len() && (#[trigger] sub_scorers@[i]).view().two_phase
                &&& d.view().match_cost == if d.view().two_phase {
                    average_match_cost
                } else {
                    0
                }
                &&& wrap_by_cost(sub_scorers@, d.base().clauses())
                &&& exists|wraps: int|
                    d.view().cost == total_cost(d.base().clauses()) + #[trigger] (wraps
                        * 0x1_0000_0000_0000_0000)
                &&& d.infallible() <==> forall|i: int|
                    0 <= i < sub_scorers@.len() ==> #[trigger] sub_scorers@[i].infallible()
            },
    {
        let base = DisjunctionScorer::new(sub_scorers, score_mode, lead_cost, average_match_cost)?;
        Ok(DisjunctionSumScorer { base })
    }

    /// Returns the clause at `position` in the order of decreasing costs.
    pub fn wrapper(&self, position: usize) -> (r: &DisiWrapper<S>)
        requires
            position < self.base().clauses().len(),
        ensures
            *r == self.base().clauses()[position as int],
    {
        self.base.wrapper(position)
    }

    /// Returns the positions of the clauses whose scores are added up for the
    /// current document.
    ///
    /// # Errors
    ///
    /// Whatever confirming a clause fails with.
    pub fn scored_clauses(&mut self) -> (r: Result<Vec<usize>, LuceneError>)
        requires
            old(self).inv(),
            old(self).view().two_phase ==> old(self).base().candidates_complete(),
        ensures
            old(self).infallible() ==> r is Ok,
            final(self).infallible() == old(self).infallible(),
            final(self).view() == old(self).view(),
            final(self).base().needs_scores() == old(self).base().needs_scores(),
            same_clauses(old(self).base().clauses(), final(self).base().clauses()),
            r is Ok && old(self).view().two_phase ==> final(self).base().candidates_complete(),
            r is Ok ==> final(self).inv(),
            r matches Ok(list) ==> list@ == old(self).base().matching_clauses(),
    {
        self.base.sub_matches()
    }

    /// Returns the clauses that match the current document, as children that
    /// should match.
    ///
    /// # Errors
    ///
    /// Whatever confirming a clause fails with.
    pub fn children(&mut self) -> (r: Result<Vec<ChildScorable>, LuceneError>)
        requires
            old(self).inv(),
            old(self).view().two_phase ==> old(self).base().candidates_complete(),
        ensures
            old(self).infallible() ==> r is Ok,
            final(self).infallible() == old(self).infallible(),
            final(self).view() == old(self).view(),
            final(self).base().needs_scores() == old(self).base().needs_scores(),
            same_clauses(old(self).base().clauses(), final(self).base().clauses()),
            r is Ok && old(self).view().two_phase ==> final(self).base().candidates_complete(),
            r is Ok ==> final(self).inv(),
            r matches Ok(children) ==> {
                &&& children@.len() == old(self).base().matching_clauses().len()
                &&& forall|i: int|
                    0 <= i < children@.len() ==> (#[trigger] children@[i]).child == old(
                        self,
                    ).base().matching_clauses()[i] && children@[i].relationship@ == "SHOULD"@
            },
    {
        self.base.children()
    }

    /// Advances to the next document that matches and returns it.
    ///
    /// # Errors
    ///
    /// Whatever reading or confirming a document fails with.
    pub fn next_doc(&mut self) -> (r: Result<i32, LuceneError>)
        requires
            old(self).inv(),
            old(self).view().ids.doc < NO_MORE_DOCS,
        ensures
            old(self).infallible() ==> r is Ok,
            final(self).infallible() == old(self).infallible(),
            r matches Ok(d) ==> {
                &&& final(self).inv()
                &&& final(self).base().needs_scores() == old(self).base().needs_scores()
                &&& same_clauses(old(self).base().clauses(), final(self).base().clauses())
                &&& d < NO_MORE_DOCS && old(self).view().two_phase && old(
                    self,
                ).base().needs_scores() ==> final(self).base().candidates_complete()
                &&& final(self).view() == old(self).view().at(d as int)
                &&& is_first_from(
                    old(self).view().hits,
                    old(self).view().ids.doc + 1,
                    d as int,
                )
            },
    {
        self.base.next_doc()
    }

    /// Advances to the first document at or after `target` that matches and
    /// returns it.
    ///
    /// # Errors
    ///
    /// Whatever reading or confirming a document fails with.
    pub fn advance(&mut self, target: i32) -> (r: Result<i32, LuceneError>)
        requires
            old(self).inv(),
            old(self).view().ids.doc < target,
        ensures
            old(self).infallible() ==> r is Ok,
            final(self).infallible() == old(self).infallible(),
            r matches Ok(d) ==> {
                &&& final(self).inv()
                &&& final(self).base().needs_scores() == old(self).base().needs_scores()
                &&& same_clauses(old(self).base().clauses(), final(self).base().clauses())
                &&& d < NO_MORE_DOCS && old(self).view().two_phase && old(
                    self,
                ).base().needs_scores() ==> final(self).base().candidates_complete()
                &&& final(self).view() == old(self).view().at(d as int)
                &&& is_first_from(old(self).view().hits, target as int, d as int)
            },
    {
        self.base.advance(target)
    }
}

impl<S: Scorer> Scorer for DisjunctionSumScorer<S> {
    open spec fn view(&self) -> Matching {
        self.base().view()
    }

    open spec fn inv(&self) -> bool {
        self.base().inv()
    }

    open spec fn infallible(&self) -> bool {
        self.base().infallible()
    }

    open spec fn confirmed(&self) -> Seq<int> {
        self.base().confirmed()
    }

    fn doc_id(&self) -> (r: i32) {
        self.base.doc_id()
    }

    fn next_approximation(&mut self) -> (r: Result<i32, LuceneError>)
        ensures
            final(self).base().needs_scores() == old(self).base().needs_scores(),
            r is Ok ==> same_clauses(old(self).base().clauses(), final(self).base().clauses()),
    {
        self.base.next_approximation()
    }

    fn advance_approximation(&mut self, target: i32) -> (r: Result<i32, LuceneError>)
        ensures
            final(self).base().needs_scores() == old(self).base().needs_scores(),
            r is Ok ==> same_clauses(old(self).base().clauses(), final(self).base().clauses()),
    {
        self.base.advance_approximation(target)
    }

    fn load_approximation(
        &mut self,
        up_to: i32,
        bit_set: &mut FixedBitSet,
        offset: i32,
    ) -> (r: Result<(), LuceneError>)
        ensures
            final(self).base().needs_scores() == old(self).base().needs_scores(),
            r is Ok ==> same_clauses(old(self).base().clauses(), final(self).base().clauses()),
    {
        assert forall|d: int| #[trigger]
            self.base.view().ids.docs.contains(d) && self.base.view().ids.read_from() <= d
                < up_to implies 0 <= d - offset < bit_set@.len() && d - offset <= i32::MAX by {
            assert(self.view().ids.docs.contains(d));
        }
        self.base.load_approximation(up_to, bit_set, offset)
    }

    fn cost(&self) -> (r: i64) {
        self.base.cost()
    }

    fn has_two_phase(&self) -> (r: bool) {
        self.base.has_two_phase()
    }

    fn match_cost(&self) -> (r: i32) {
        self.base.match_cost()
    }

    fn matches(&mut self) -> (r: Result<bool, LuceneError>)
        ensures
            final(self).base().needs_scores() == old(self).base().needs_scores(),
            r is Ok ==> same_clauses(old(self).base().clauses(), final(self).base().clauses()),
            r matches Ok(true) ==> old(self).base().needs_scores() ==> final(
                self).base().candidates_complete(),
            r is Ok ==> asked_cheapest_first(
                old(self).base().clauses(),
                final(self).base().clauses(),
                old(self).view().ids.doc,
            ),
    {
        self.base.matches()
    }

    fn hits_run_end(&self) -> (r: Result<i32, LuceneError>) {
        self.base.hits_run_end()
    }
}

impl<S: BlockScorer> DisjunctionSumScorer<S> {
    /// Tells the clauses at or before `target` to look ahead to it, and returns the last document
    /// up to which the greatest possible sum of scores stays as it is.
    ///
    /// # Errors
    ///
    /// Whatever reading the scores of the clauses fails with.
    pub fn advance_shallow(&mut self, target: i32) -> (r: Result<i32, LuceneError>)
        requires
            old(self).inv(),
        ensures
            old(self).infallible() ==> r is Ok,
            final(self).infallible() == old(self).infallible(),
            final(self).inv(),
            SubScorers::blocks(&final(self).base()) == SubScorers::blocks(&old(self).base()),
            SubScorers::rest(&final(self).base()) == SubScorers::rest(&old(self).base()),
            final(self).view() == old(self).view(),
            final(self).confirmed() == old(self).confirmed(),
            old(self).base().candidates_complete() ==> final(self).base().candidates_complete(),
            r matches Ok(up_to) ==> {
                let blocks = SubScorers::blocks(&old(self).base());
                let n = blocks.docs.len() as int;
                &&& is_least_end(blocks, target, n, up_to as int)
                &&& SubScorers::looked_at(&final(self).base()) == shown_target(
                    blocks,
                    SubScorers::looked_at(&old(self).base()),
                    target,
                    n,
                )
            },
    {
        let ghost before = self.base;
        let r = advance_shallow(&mut self.base, target);
        proof {
            let was = SubScorers::rest(&before);
            let now = SubScorers::rest(&self.base);
            assert(was.matching == before.view() && now.matching == self.base.view());
            assert(was.confirmed == before.confirmed() && now.confirmed == self.base.confirmed());
            assert(was.clauses.len() == before.clauses().len());
            assert(now.clauses.len() == self.base.clauses().len());
            assert forall|p: int| 0 <= p < before.clauses().len() implies (
            #[trigger] self.base.clauses()[p]).scorer.view() == before.clauses()[p].scorer.view()
                && self.base.clauses()[p].doc == before.clauses()[p].doc by {
                assert(was.clauses[p] == before.clauses()[p].scorer.view());
                assert(now.clauses[p] == self.base.clauses()[p].scorer.view());
                assert(was.docs[p] == before.clauses()[p].doc);
                assert(now.docs[p] == self.base.clauses()[p].doc);
            }
            if before.candidates_complete() {
                assert(self.base.candidates_complete());
            }
        }
        r
    }

    /// Returns the clauses that may match a document up to `up_to`. The greatest score up to it is
    /// at most the sum of their greatest scores.
    pub fn max_score_clauses(&self, up_to: i32) -> (r: Vec<usize>)
        requires
            self.inv(),
        ensures
            ({
                let blocks = SubScorers::blocks(&self.base());
                r@ == clauses_at_or_before(blocks, up_to, blocks.docs.len() as int)
            }),
    {
        max_score_clauses(&self.base, up_to)
    }
}

} // verus!
