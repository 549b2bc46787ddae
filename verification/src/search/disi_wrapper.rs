//! Scorers as the elements of a queue.

use vstd::prelude::*;

use crate::error::LuceneError;
use crate::search::scorer::Scorer;

verus! {

/// The weight 1, as the integer that is ordered like it among single-precision numbers.
pub const UNIT_WEIGHT: i32 = 1065353216;

/// A scorer, together with what a queue reads of it often.
pub struct DisiWrapper<S: Scorer> {
    /// The scorer.
    pub scorer: S,
    /// Whether the scorer has a two-phase view, read once.
    pub two_phase: bool,
    /// The cost of the scorer, read once.
    pub cost: i64,
    /// The match cost of the scorer, read once; 0 without a two-phase view.
    pub match_cost: i32,
    /// The document that queues compare.
    pub doc: i32,
    /// Scaled maximum score.
    pub scaled_max_score: i64,
    /// The maximum score in the current window of documents.
    pub max_window_score: i32,
    /// The weight of the clause.
    pub weight: i32,
}

impl<S: Scorer> DisiWrapper<S> {
    /// What was read of the scorer still holds.
    pub open spec fn inv(&self) -> bool {
        &&& self.scorer.inv()
        &&& self.scorer.view().valid()
        &&& self.two_phase == self.scorer.view().two_phase
        &&& self.cost == self.scorer.view().cost
        &&& self.match_cost == self.scorer.view().match_cost
    }

    /// Everything but the scorer and the document is the same, and the scorers
    /// match the same documents.
    pub open spec fn same_clause(&self, other: &Self) -> bool {
        &&& self.scorer.view() == other.scorer.view().at(self.scorer.view().ids.doc)
        &&& self.scorer.infallible() == other.scorer.infallible()
        &&& self.two_phase == other.two_phase
        &&& self.cost == other.cost
        &&& self.match_cost == other.match_cost
        &&& self.scaled_max_score == other.scaled_max_score
        &&& self.max_window_score == other.max_window_score
        &&& self.weight == other.weight
    }

    /// Wraps a scorer; its clause has the weight 1. `impacts` says whether the scorer is
    /// likely to know of the scores of blocks of documents.
    pub fn new(scorer: S, impacts: bool) -> (r: Self)
        requires
            scorer.inv(),
        ensures
            r.inv(),
            r.scorer == scorer,
            r.two_phase == scorer.view().two_phase,
            r.cost == scorer.view().cost,
            r.match_cost == scorer.view().match_cost,
            r.doc == -1,
            r.scaled_max_score == 0,
            r.max_window_score == 0,
            r.weight == UNIT_WEIGHT,
    {
        Self::with_weight(scorer, impacts, UNIT_WEIGHT)
    }

    /// Wraps a scorer whose clause has the given weight.
    pub fn with_weight(scorer: S, impacts: bool, weight: i32) -> (r: Self)
        requires
            scorer.inv(),
        ensures
            r.inv(),
            r.scorer == scorer,
            r.two_phase == scorer.view().two_phase,
            r.cost == scorer.view().cost,
            r.match_cost == scorer.view().match_cost,
            r.doc == -1,
            r.scaled_max_score == 0,
            r.max_window_score == 0,
            r.weight == weight,
    {
        let _ = scorer.doc_id();
        let two_phase: bool = scorer.has_two_phase();
        let cost: i64 = scorer.cost();
        let match_cost: i32 = if two_phase {
            scorer.match_cost()
        } else {
            0
        };
        DisiWrapper {
            scorer,
            two_phase,
            cost,
            match_cost,
            doc: -1,
            scaled_max_score: 0,
            max_window_score: 0,
            weight,
        }
    }

    /// Returns the current document of the approximation.
    pub fn approximation_doc_id(&self) -> (r: i32)
        requires
            self.inv(),
        ensures
            r == self.scorer.view().ids.doc,
    {
        self.scorer.doc_id()
    }

    /// Returns the scorer.
    pub fn scorer(&mut self) -> (r: &mut S)
        ensures
            *r == old(self).scorer,
            *final(self) == (DisiWrapper { scorer: *final(r), ..*old(self) }),
    {
        &mut self.scorer
    }

    /// Returns the scorer if it has a two-phase view.
    pub fn two_phase_view(&mut self) -> (r: Option<&mut S>)
        ensures
            match r {
                Some(scorer) => {
                    &&& old(self).two_phase
                    &&& *scorer == old(self).scorer
                    &&& *final(self) == (DisiWrapper { scorer: *final(scorer), ..*old(self) })
                },
                None => !old(self).two_phase && *final(self) == *old(self),
            },
    {
        if self.two_phase {
            Some(&mut self.scorer)
        } else {
            None
        }
    }

    /// Returns whether the scorer has a two-phase view.
    pub fn has_two_phase(&self) -> (r: bool)
        ensures
            r == self.two_phase,
    {
        self.two_phase
    }

    /// Confirms the current document; without a two-phase view it is confirmed
    /// without asking.
    ///
    /// # Errors
    ///
    /// Whatever [`Scorer::matches`] fails with.
    pub fn matches(&mut self) -> (r: Result<bool, LuceneError>)
        requires
            old(self).inv(),
            old(self).scorer.view().ids.docs.contains(old(self).scorer.view().ids.doc),
        ensures
            old(self).scorer.infallible() || !old(self).two_phase ==> r is Ok,
            final(self).same_clause(old(self)),
            final(self).scorer.view() == old(self).scorer.view(),
            final(self).doc == old(self).doc,
            r is Ok ==> final(self).inv(),
            !old(self).two_phase ==> final(self).scorer.confirmed() == old(
                self,
            ).scorer.confirmed(),
            r is Ok && old(self).two_phase ==> final(self).scorer.confirmed() == old(
                self,
            ).scorer.confirmed().push(old(self).scorer.view().ids.doc),
            r matches Ok(b) ==> b == old(self).scorer.view().hits.contains(
                old(self).scorer.view().ids.doc,
            ),
    {
        if !self.two_phase {
            return Ok(true);
        }
        self.scorer.matches()
    }

    /// Unwraps the scorer.
    pub fn into_scorer(self) -> (r: S)
        ensures
            r == self.scorer,
    {
        self.scorer
    }
}

} // verus!
