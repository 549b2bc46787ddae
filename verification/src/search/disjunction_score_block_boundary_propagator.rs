//! How far a disjunction can go before its greatest possible score changes.

use vstd::prelude::*;

use crate::error::LuceneError;
use crate::search::disi_wrapper::DisiWrapper;
use crate::search::disjunction_scorer::DisjunctionScorer;
use crate::search::scorer::{BlockScorer, Matching, Scorer};
use crate::util::sort::{is_stable_order, stable_order};

verus! {

/// The abstract state of the clauses of a disjunction.
pub struct ScoreBlocks {
    /// The current document of each clause.
    pub docs: Seq<i32>,
    /// The cost of each clause.
    pub costs: Seq<i64>,
    /// The greatest score of each clause over all documents.
    pub max_scores: Seq<i32>,
    /// The last document of the block that `target` is in, for each clause and
    /// target.
    pub boundaries: spec_fn(int, i32) -> i32,
}

/// The clauses of a disjunction. Scores are integers that are ordered like them.
pub trait SubScorers {
    /// What looking ahead does not change.
    type Rest;

    /// What is known of the clauses.
    spec fn blocks(&self) -> ScoreBlocks;

    /// The document that each clause was last told to look ahead to.
    spec fn looked_at(&self) -> Seq<Option<i32>>;

    /// What looking ahead does not change, beside the blocks.
    spec fn rest(&self) -> Self::Rest;

    /// The internal invariant of the implementation.
    spec fn inv(&self) -> bool;

    /// Whether no step fails.
    spec fn infallible(&self) -> bool;

    /// Returns the number of clauses.
    fn len(&self) -> (r: usize)
        requires
            self.inv(),
        ensures
            r == self.blocks().docs.len(),
            r == self.blocks().costs.len(),
            r == self.blocks().max_scores.len(),
            r == self.looked_at().len(),
    ;

    /// Returns whether there are no clauses.
    fn is_empty(&self) -> (r: bool)
        requires
            self.inv(),
        ensures
            r <==> self.blocks().docs.len() == 0,
    {
        self.len() == 0
    }

    /// Returns the current document of a clause.
    fn doc_id(&self, index: usize) -> (r: i32)
        requires
            self.inv(),
            index < self.blocks().docs.len(),
        ensures
            r == self.blocks().docs[index as int],
    ;

    /// Returns the cost of a clause.
    fn cost(&self, index: usize) -> (r: i64)
        requires
            self.inv(),
            index < self.blocks().docs.len(),
        ensures
            r == self.blocks().costs[index as int],
    ;

    /// Returns the greatest score of a clause over all documents.
    ///
    /// # Errors
    ///
    /// Whatever reading the clause fails with.
    fn max_score(&self, index: usize) -> (r: Result<i32, LuceneError>)
        requires
            self.inv(),
            index < self.blocks().docs.len(),
        ensures
            self.infallible() ==> r is Ok,
            r matches Ok(score) ==> score == self.blocks().max_scores[index as int],
    ;

    /// Tells a clause to look ahead to `target`, and returns the last document of
    /// the block that `target` is in.
    ///
    /// # Errors
    ///
    /// Whatever reading the clause fails with.
    fn advance_shallow(&mut self, index: usize, target: i32) -> (r: Result<i32, LuceneError>)
        requires
            old(self).inv(),
            index < old(self).blocks().docs.len(),
        ensures
            old(self).infallible() ==> r is Ok,
            final(self).infallible() == old(self).infallible(),
            final(self).inv(),
            final(self).blocks() == old(self).blocks(),
            final(self).rest() == old(self).rest(),
            final(self).looked_at().len() == old(self).looked_at().len(),
            r matches Ok(up_to) ==> {
                &&& up_to == (old(self).blocks().boundaries)(index as int, target)
                &&& final(self).looked_at() == old(self).looked_at().update(
                    index as int,
                    Some(target),
                )
            },
    ;
}

/// The scorer of the clause that was supplied at position `i`.
pub open spec fn supplied_scorer<S: BlockScorer>(d: DisjunctionScorer<S>, i: int) -> S {
    d.clauses()[d.approx().supplied_order()[i] as int].scorer
}

/// What a disjunction has found out, and where its clauses are.
#[verifier::ext_equal]
pub struct DisjunctionState {
    /// The documents, and the current one.
    pub matching: Matching,
    /// The documents that were decided.
    pub confirmed: Seq<int>,
    /// Whether all clauses that match a document are wanted.
    pub needs_scores: bool,
    /// The clauses that are known to match the current document.
    pub verified: Seq<usize>,
    /// The clauses that are not yet known to match it or not.
    pub unverified: Seq<usize>,
    /// The documents of the clauses.
    pub clauses: Seq<Matching>,
    /// The documents that the clauses are ordered by.
    pub docs: Seq<i32>,
}

impl<S: BlockScorer> SubScorers for DisjunctionScorer<S> {
    type Rest = DisjunctionState;

    open spec fn rest(&self) -> DisjunctionState {
        DisjunctionState {
            matching: self.view(),
            confirmed: self.confirmed(),
            needs_scores: self.needs_scores(),
            verified: self.verified(),
            unverified: self.unverified(),
            clauses: self.clauses().map_values(|w: DisiWrapper<S>| w.scorer.view()),
            docs: self.clauses().map_values(|w: DisiWrapper<S>| w.doc),
        }
    }

    open spec fn blocks(&self) -> ScoreBlocks {
        let n = self.clauses().len();
        ScoreBlocks {
            docs: Seq::new(n, |i: int| supplied_scorer(*self, i).view().ids.doc as i32),
            costs: Seq::new(n, |i: int| supplied_scorer(*self, i).view().cost),
            max_scores: Seq::new(n, |i: int| supplied_scorer(*self, i).greatest_score()),
            boundaries: |i: int, target: i32|
                if 0 <= i < n {
                    supplied_scorer(*self, i).block_end(target)
                } else {
                    0
                },
        }
    }

    open spec fn looked_at(&self) -> Seq<Option<i32>> {
        Seq::new(self.clauses().len(), |i: int| supplied_scorer(*self, i).looking_at())
    }

    open spec fn inv(&self) -> bool {
        Scorer::inv(self)
    }

    open spec fn infallible(&self) -> bool {
        Scorer::infallible(self)
    }

    fn len(&self) -> (r: usize) {
        let n: usize = self.num_clauses();
        assert(self.looked_at().len() == self.clauses().len());
        n
    }

    fn doc_id(&self, index: usize) -> (r: i32) {
        self.approximation().sub_scorer(index).scorer.doc_id()
    }

    fn cost(&self, index: usize) -> (r: i64) {
        self.approximation().sub_scorer(index).scorer.cost()
    }

    fn max_score(&self, index: usize) -> (r: Result<i32, LuceneError>) {
        proof {
            self.clauses_are_those_of_approximation();
            self.approx().clauses_are_positioned();
            let p = self.approx().supplied_order()[index as int] as int;
            assert(SubScorers::infallible(self) ==> self.approx().clauses()[p].scorer.infallible());
        }
        self.approximation().sub_scorer(index).scorer.max_score()
    }

    fn advance_shallow(&mut self, index: usize, target: i32) -> (r: Result<i32, LuceneError>) {
        let ghost order = self.approx().supplied_order();
        let ghost p = order[index as int] as int;
        proof {
            self.clauses_are_those_of_approximation();
            self.approx().clauses_are_positioned();
            assert(SubScorers::infallible(self) ==> self.approx().clauses()[p].scorer.infallible());
        }
        let r = self.advance_shallow_of(index, target);
        proof {
            let n = old(self).clauses().len() as int;
            assert forall|i: int| 0 <= i < n && i != index implies #[trigger] supplied_scorer(
                *self,
                i,
            ) == supplied_scorer(*old(self), i) by {
                assert(order[i] != order[index as int]);
            }
            let before = SubScorers::blocks(old(self));
            let after = SubScorers::blocks(self);
            assert(supplied_scorer(*old(self), index as int) == old(self).clauses()[p].scorer);
            assert(supplied_scorer(*self, index as int) == self.clauses()[p].scorer);
            assert(after.docs =~= before.docs);
            assert(after.costs =~= before.costs);
            assert(after.max_scores =~= before.max_scores);
            assert(after.boundaries =~= before.boundaries);
            assert(SubScorers::rest(self) =~= SubScorers::rest(old(self)));
        }
        r
    }
}

/// The greater of two integers.
pub open spec fn greater_of(a: i32, b: i32) -> i32 {
    if a >= b {
        a
    } else {
        b
    }
}

/// Keeps the clauses of a disjunction in the order of their greatest scores, and
/// finds the block boundaries that matter: those of the clauses that can take part
/// in a competitive score.
#[derive(Debug)]
pub struct DisjunctionScoreBlockBoundaryPropagator {
    order: Vec<usize>,
    max_scores: Vec<i32>,
    lead_index: usize,
}

impl DisjunctionScoreBlockBoundaryPropagator {
    /// The clauses in the order of their greatest scores.
    pub closed spec fn order(&self) -> Seq<usize> {
        self.order@
    }

    /// The greatest scores of the clauses, in that order.
    pub closed spec fn max_scores(&self) -> Seq<i32> {
        self.max_scores@
    }

    /// The position in that order before which no clause alone has a competitive
    /// score.
    pub closed spec fn lead(&self) -> int {
        self.lead_index as int
    }

    /// The order lists each clause once, the greatest scores do not decrease, and
    /// the lead is one of the clauses.
    pub open spec fn wf(&self) -> bool {
        &&& self.order().no_duplicates()
        &&& forall|i: int|
            0 <= i < self.order().len() ==> #[trigger] self.order()[i] < self.order().len()
        &&& self.max_scores().len() == self.order().len()
        &&& forall|i: int, j: int|
            0 <= i <= j < self.max_scores().len() ==> self.max_scores()[i] <= self.max_scores()[j]
        &&& self.lead() == 0 || 0 < self.lead() < self.order().len()
    }

    /// Whether the clause at position `i`, and all those after it, are beyond
    /// `target`.
    pub open spec fn beyond(&self, blocks: ScoreBlocks, target: i32, i: int) -> bool {
        forall|j: int|
            i <= j < self.order().len() ==> blocks.docs[#[trigger] self.order()[j] as int] > target
    }

    /// Whether the clause at position `i` ends a block at `b`: the block that the
    /// target is in, or the document before the next one of a clause that is beyond
    /// the target together with all those with greater scores.
    pub open spec fn ends_at(&self, blocks: ScoreBlocks, target: i32, i: int, b: int) -> bool {
        let clause = self.order()[i] as int;
        ||| i == self.lead() && b == (blocks.boundaries)(
            clause,
            greater_of(blocks.docs[clause], target),
        )
        ||| i > self.lead() && blocks.docs[clause] <= target && b == (blocks.boundaries)(
            clause,
            target,
        )
        ||| i > self.lead() && self.beyond(blocks, target, i) && b == blocks.docs[clause] - 1
    }

    /// What the clause at position `i` is told to look ahead to; `None` when it is
    /// not told anything.
    pub open spec fn shown(&self, blocks: ScoreBlocks, target: i32, i: int) -> Option<i32> {
        let doc = blocks.docs[self.order()[i] as int];
        if i < self.lead() {
            if doc < target {
                Some(target)
            } else {
                None
            }
        } else if i == self.lead() {
            Some(greater_of(doc, target))
        } else if doc <= target {
            Some(target)
        } else {
            None
        }
    }

    /// Whether `b` is the least document at which a block ends.
    pub open spec fn is_boundary(&self, blocks: ScoreBlocks, target: i32, b: int) -> bool {
        &&& exists|i: int|
            0 <= i < self.order().len() && #[trigger] self.ends_at(blocks, target, i, b)
        &&& forall|i: int, c: int|
            0 <= i < self.order().len() && #[trigger] self.ends_at(blocks, target, i, c) ==> b <= c
    }

    /// Whether the clauses before position `k` have been told to look ahead,
    /// and the others have not.
    pub open spec fn told(
        &self,
        blocks: ScoreBlocks,
        target: i32,
        before: Seq<Option<i32>>,
        now: Seq<Option<i32>>,
        k: int,
    ) -> bool {
        &&& now.len() == before.len()
        &&& forall|i: int|
            0 <= i < self.order().len() ==> #[trigger] now[self.order()[i] as int] == (if i < k {
                match self.shown(blocks, target, i) {
                    Some(shown) => Some(shown),
                    None => before[self.order()[i] as int],
                }
            } else {
                before[self.order()[i] as int]
            })
    }

    /// Puts the clauses in the order of their greatest scores; of two with the same
    /// score the one with the lesser cost comes first.
    ///
    /// # Errors
    ///
    /// Whatever reading the clauses fails with.
    pub fn new<X: SubScorers>(scorers: &mut X) -> (r: Result<Self, LuceneError>)
        requires
            old(scorers).inv(),
        ensures
            old(scorers).infallible() ==> r is Ok,
            final(scorers).infallible() == old(scorers).infallible(),
            final(scorers).inv(),
            final(scorers).blocks() == old(scorers).blocks(),
            final(scorers).rest() == old(scorers).rest(),
            r matches Ok(p) ==> {
                let n = old(scorers).blocks().docs.len();
                &&& p.wf()
                &&& p.lead() == 0
                &&& is_stable_order(
                    Seq::new(
                        n,
                        |i: int|
                            (
                                old(scorers).blocks().max_scores[i] as i64,
                                old(scorers).blocks().costs[i],
                            ),
                    ),
                    n as int,
                    p.order(),
                )
                &&& p.max_scores() == Seq::new(
                    n,
                    |i: int| old(scorers).blocks().max_scores[p.order()[i] as int],
                )
                &&& final(scorers).looked_at() == Seq::new(n, |i: int| Some(0i32))
            },
    {
        let n: usize = scorers.len();
        let ghost blocks = scorers.blocks();
        let mut i: usize = 0;
        while i < n
            invariant
                n == blocks.docs.len(),
                n == scorers.looked_at().len(),
                i <= n,
                scorers.inv(),
                scorers.blocks() == blocks,
                scorers.rest() == old(scorers).rest(),
                scorers.infallible() == old(scorers).infallible(),
                blocks == old(scorers).blocks(),
                forall|j: int| 0 <= j < i ==> #[trigger] scorers.looked_at()[j] == Some(0i32),
            decreases n - i,
        {
            scorers.advance_shallow(i, 0)?;
            i += 1;
        }
        let mut keys: Vec<(i64, i64)> = Vec::with_capacity(n);
        let mut k: usize = 0;
        while k < n
            invariant
                n == blocks.docs.len(),
                k <= n,
                scorers.inv(),
                scorers.blocks() == blocks,
                scorers.rest() == old(scorers).rest(),
                scorers.infallible() == old(scorers).infallible(),
                blocks == old(scorers).blocks(),
                keys@ =~= Seq::new(k as nat, |j: int| (blocks.max_scores[j] as i64, blocks.costs[j])),
            decreases n - k,
        {
            let score: i32 = scorers.max_score(k)?;
            let cost: i64 = scorers.cost(k);
            keys.push((score as i64, cost));
            k += 1;
        }
        let order = stable_order(keys.as_slice());
        let mut max_scores: Vec<i32> = Vec::with_capacity(n);
        let mut m: usize = 0;
        while m < n
            invariant
                n == blocks.docs.len(),
                m <= n,
                keys@ =~= Seq::new(n as nat, |j: int| (blocks.max_scores[j] as i64, blocks.costs[j])),
                is_stable_order(keys@, n as int, order@),
                max_scores@ =~= Seq::new(m as nat, |j: int| blocks.max_scores[order@[j] as int]),
            decreases n - m,
        {
            assert(order@[m as int] < n);
            max_scores.push(keys[order[m]].0 as i32);
            m += 1;
        }
        let r = DisjunctionScoreBlockBoundaryPropagator { order, max_scores, lead_index: 0 };
        assert(r.wf()) by {
            assert forall|a: int, b: int| 0 <= a <= b < r.max_scores().len() implies r.max_scores()[a]
                <= r.max_scores()[b] by {
                assert(order@[a] < n && order@[b] < n);
            }
        }
        Ok(r)
    }

    /// Tells the clauses to look ahead to `target`, and returns the last document
    /// up to which the greatest possible score stays as it is.
    ///
    /// # Errors
    ///
    /// Whatever reading the clauses fails with.
    pub fn advance_shallow<X: SubScorers>(&mut self, scorers: &mut X, target: i32) -> (r: Result<
        i32,
        LuceneError,
    >)
        requires
            old(self).wf(),
            old(scorers).inv(),
            old(self).order().len() == old(scorers).blocks().docs.len(),
            old(self).order().len() > 0,
        ensures
            *final(self) == *old(self),
            old(scorers).infallible() ==> r is Ok,
            final(scorers).infallible() == old(scorers).infallible(),
            final(scorers).inv(),
            final(scorers).blocks() == old(scorers).blocks(),
            final(scorers).rest() == old(scorers).rest(),
            r matches Ok(up_to) ==> {
                &&& old(self).is_boundary(old(scorers).blocks(), target, up_to as int)
                &&& old(self).told(
                    old(scorers).blocks(),
                    target,
                    old(scorers).looked_at(),
                    final(scorers).looked_at(),
                    old(self).order().len() as int,
                )
            },
    {
        let ghost blocks = scorers.blocks();
        let n: usize = self.order.len();
        let lead: usize = self.lead_index;
        let ghost before = scorers.looked_at();
        let m: usize = scorers.len();
        let mut i: usize = 0;
        while i < lead
            invariant
                *self == *old(self),
                self.wf(),
                n == self.order@.len(),
                n == blocks.docs.len(),
                lead == self.lead(),
                lead < n,
                i <= lead,
                scorers.inv(),
                scorers.blocks() == blocks,
                scorers.rest() == old(scorers).rest(),
                blocks == old(scorers).blocks(),
                scorers.infallible() == old(scorers).infallible(),
                before == old(scorers).looked_at(),
                before.len() == n,
                self.told(blocks, target, before, scorers.looked_at(), i as int),
            decreases lead - i,
        {
            let clause: usize = self.order[i];
            assert(self.order()[i as int] < n);
            let ghost was = scorers.looked_at();
            if scorers.doc_id(clause) < target {
                scorers.advance_shallow(clause, target)?;
            }
            proof {
                self.lemma_told(blocks, target, before, was, scorers.looked_at(), i as int);
            }
            i += 1;
        }
        let clause: usize = self.order[lead];
        assert(self.order()[lead as int] < n);
        let lead_doc: i32 = scorers.doc_id(clause);
        let lead_target: i32 = if lead_doc >= target {
            lead_doc
        } else {
            target
        };
        let ghost was = scorers.looked_at();
        let mut up_to: i32 = scorers.advance_shallow(clause, lead_target)?;
        proof {
            self.lemma_told(blocks, target, before, was, scorers.looked_at(), lead as int);
        }
        let ghost mut at: int = lead as int;
        assert(self.ends_at(blocks, target, at, up_to as int));
        let mut k: usize = lead + 1;
        while k < n
            invariant
                *self == *old(self),
                self.wf(),
                n == self.order@.len(),
                n == blocks.docs.len(),
                lead == self.lead(),
                lead < k <= n,
                scorers.inv(),
                scorers.blocks() == blocks,
                scorers.rest() == old(scorers).rest(),
                blocks == old(scorers).blocks(),
                scorers.infallible() == old(scorers).infallible(),
                before == old(scorers).looked_at(),
                before.len() == n,
                self.told(blocks, target, before, scorers.looked_at(), k as int),
                0 <= at < n,
                self.ends_at(blocks, target, at, up_to as int),
                up_to <= (blocks.boundaries)(
                    self.order()[lead as int] as int,
                    greater_of(blocks.docs[self.order()[lead as int] as int], target),
                ),
                forall|j: int|
                    lead < j < k && blocks.docs[#[trigger] self.order()[j] as int] <= target
                        ==> up_to <= (blocks.boundaries)(self.order()[j] as int, target),
            decreases n - k,
        {
            let clause: usize = self.order[k];
            assert(self.order()[k as int] < n);
            let ghost was = scorers.looked_at();
            if scorers.doc_id(clause) <= target {
                let b: i32 = scorers.advance_shallow(clause, target)?;
                if b <= up_to {
                    up_to = b;
                    proof {
                        at = k as int;
                    }
                }
            }
            proof {
                self.lemma_told(blocks, target, before, was, scorers.looked_at(), k as int);
            }
            k += 1;
        }
        let mut j: usize = n - 1;
        while j > lead
            invariant_except_break
                *self == *old(self),
                n == self.order@.len(),
                lead == self.lead(),
                lead <= j < n,
                forall|a: int|
                    j < a < n ==> blocks.docs[#[trigger] self.order()[a] as int] > target && up_to
                        <= blocks.docs[self.order()[a] as int] - 1,
            invariant
                self.wf(),
                *self == *old(self),
                n == self.order@.len(),
                n == blocks.docs.len(),
                lead == self.lead(),
                lead < n,
                scorers.inv(),
                scorers.blocks() == blocks,
                scorers.rest() == old(scorers).rest(),
                blocks == old(scorers).blocks(),
                0 <= at < n,
                self.ends_at(blocks, target, at, up_to as int),
                up_to <= (blocks.boundaries)(
                    self.order()[lead as int] as int,
                    greater_of(blocks.docs[self.order()[lead as int] as int], target),
                ),
                forall|a: int|
                    lead < a < n && blocks.docs[#[trigger] self.order()[a] as int] <= target
                        ==> up_to <= (blocks.boundaries)(self.order()[a] as int, target),
            ensures
                forall|a: int|
                    lead < a < n && #[trigger] self.beyond(blocks, target, a) ==> up_to
                        <= blocks.docs[self.order()[a] as int] - 1,
            decreases j,
        {
            let clause: usize = self.order[j];
            assert(self.order()[j as int] < n);
            let doc: i32 = scorers.doc_id(clause);
            if doc > target {
                if doc - 1 <= up_to {
                    up_to = doc - 1;
                    proof {
                        at = j as int;
                        assert(self.beyond(blocks, target, j as int));
                    }
                }
            } else {
                proof {
                    assert forall|a: int|
                        lead < a < n && #[trigger] self.beyond(blocks, target, a) implies up_to
                        <= blocks.docs[self.order()[a] as int] - 1 by {
                        assert(a > j);
                    }
                }
                break;
            }
            j -= 1;
        }
        proof {
            assert forall|i: int, b: int|
                0 <= i < self.order().len() && #[trigger] self.ends_at(
                    blocks,
                    target,
                    i,
                    b,
                ) implies up_to <= b by {
                assert(i > lead && self.beyond(blocks, target, i) ==> up_to
                    <= blocks.docs[self.order()[i] as int] - 1);
            }
            assert(self.is_boundary(blocks, target, up_to as int));
        }
        Ok(up_to)
    }

    proof fn lemma_told(
        &self,
        blocks: ScoreBlocks,
        target: i32,
        before: Seq<Option<i32>>,
        was: Seq<Option<i32>>,
        now: Seq<Option<i32>>,
        k: int,
    )
        requires
            self.wf(),
            before.len() == self.order().len(),
            0 <= k < self.order().len(),
            self.told(blocks, target, before, was, k),
            match self.shown(blocks, target, k) {
                Some(shown) => now == was.update(self.order()[k] as int, Some(shown)),
                None => now == was,
            },
        ensures
            self.told(blocks, target, before, now, k + 1),
    {
        assert forall|i: int| 0 <= i < self.order().len() implies #[trigger] now[self.order()[i] as int]
            == (if i < k + 1 {
            match self.shown(blocks, target, i) {
                Some(shown) => Some(shown),
                None => before[self.order()[i] as int],
            }
        } else {
            before[self.order()[i] as int]
        }) by {
            assert(was[self.order()[i] as int] == (if i < k {
                match self.shown(blocks, target, i) {
                    Some(shown) => Some(shown),
                    None => before[self.order()[i] as int],
                }
            } else {
                before[self.order()[i] as int]
            }));
            assert(i != k ==> self.order()[i] != self.order()[k]);
        }
    }

    /// Leaves out the clauses that alone have no score of at least `min_score`.
    pub fn set_min_competitive_score(&mut self, min_score: i32)
        requires
            old(self).wf(),
        ensures
            final(self).wf(),
            final(self).order() == old(self).order(),
            final(self).max_scores() == old(self).max_scores(),
            final(self).lead() >= old(self).lead(),
            forall|i: int|
                old(self).lead() <= i < final(self).lead() ==> #[trigger] old(self).max_scores()[i]
                    < min_score,
            final(self).lead() + 1 >= old(self).max_scores().len() || old(
                self,
            ).max_scores()[final(self).lead()] >= min_score,
    {
        let n: usize = self.max_scores.len();
        while self.lead_index < n && self.lead_index + 1 < n && min_score
            > self.max_scores[self.lead_index]
            invariant
                n == self.max_scores@.len(),
                self.wf(),
                self.order() == old(self).order(),
                self.max_scores() == old(self).max_scores(),
                self.lead() >= old(self).lead(),
                forall|i: int|
                    old(self).lead() <= i < self.lead() ==> #[trigger] old(self).max_scores()[i]
                        < min_score,
            decreases n - self.lead_index,
        {
            self.lead_index = self.lead_index + 1;
        }
    }
}

/// When clauses were left out for a least competitive score, each clause before the lead, by
/// itself, scores below it.
pub proof fn left_out_clauses_are_not_competitive(
    before: DisjunctionScoreBlockBoundaryPropagator,
    after: DisjunctionScoreBlockBoundaryPropagator,
    min_score: i32,
    i: int,
)
    requires
        before.wf(),
        after.wf(),
        after.max_scores() == before.max_scores(),
        before.lead() < after.lead(),
        forall|j: int|
            before.lead() <= j < after.lead() ==> #[trigger] before.max_scores()[j] < min_score,
        0 <= i < after.lead(),
        after.order().len() > 0,
    ensures
        after.max_scores()[i] < min_score,
{
    if i < before.lead() {
        assert(before.max_scores()[before.lead()] < min_score);
        assert(before.max_scores()[i] <= before.max_scores()[before.lead()]);
    }
}

} // verus!
