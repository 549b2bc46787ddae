//! Iteration over the documents that a query matches.

use vstd::prelude::*;

use crate::error::LuceneError;
use crate::search::doc_id_set_iterator::{is_first_from, loaded_bits, DocIds, NO_MORE_DOCS};
use crate::util::fixed_bit_set::FixedBitSet;

verus! {

/// The abstract state of a [`Scorer`].
#[verifier::ext_equal]
pub struct Matching {
    /// The documents that may match, and the current one.
    pub ids: DocIds,
    /// The documents that match.
    pub hits: Set<int>,
    /// Whether matches have to be confirmed.
    pub two_phase: bool,
    /// The cost of iterating over the documents that may match.
    pub cost: i64,
    /// The cost of confirming one match.
    pub match_cost: i32,
    /// For each document that may match, the end (exclusive) of a run of
    /// consecutive documents from it on that are known to match.
    pub runs: spec_fn(int) -> int,
}

/// Runs of one document; runs of no document where matches have to be confirmed.
pub open spec fn single_runs(two_phase: bool) -> spec_fn(int) -> int {
    |d: int|
        d + if two_phase {
            0int
        } else {
            1
        }
}

/// `after` is the record `before` with more documents at its end, all of them
/// in `docs` and in `[from, to)`.
pub open spec fn recorded_within(
    before: Seq<int>,
    after: Seq<int>,
    docs: Set<int>,
    from: int,
    to: int,
) -> bool {
    &&& before.len() <= after.len()
    &&& after.take(before.len() as int) == before
    &&& forall|i: int|
        before.len() <= i < after.len() ==> from <= #[trigger] after[i] < to && docs.contains(
            after[i],
        )
}

impl Matching {
    /// The documents that match may match; without confirmation, those that may
    /// match do.
    pub open spec fn valid(self) -> bool {
        &&& self.ids.valid()
        &&& forall|d: int| #[trigger] self.hits.contains(d) ==> self.ids.docs.contains(d)
        &&& !self.two_phase ==> self.hits == self.ids.docs && self.match_cost == 0
    }

    /// The state after moving to `doc`.
    pub open spec fn at(self, doc: int) -> Matching {
        Matching { ids: self.ids.at(doc), ..self }
    }
}

/// An iterator over the documents that a query may match, with a confirmation
/// step for those that are costly to decide.
///
/// The iteration runs over an approximation. A scorer with a two-phase view
/// decides with [`Scorer::matches`] whether the current document of the
/// approximation is a match; for any other scorer each one is.
///
/// The cost of a confirmation is a floating-point number elsewhere; here it is
/// an integer that is ordered like it.
pub trait Scorer {
    /// The documents of this scorer and its position among them.
    spec fn view(&self) -> Matching;

    /// The internal invariant of the implementation.
    spec fn inv(&self) -> bool;

    /// Whether no step of this scorer fails.
    spec fn infallible(&self) -> bool;

    /// The documents that [`Self::matches`] has decided, in the order in which it
    /// was asked.
    spec fn confirmed(&self) -> Seq<int>;

    /// Returns the current document of the approximation.
    fn doc_id(&self) -> (r: i32)
        requires
            self.inv(),
        ensures
            r == self.view().ids.doc,
            self.view().valid(),
    ;

    /// Advances to the next document of the approximation and returns it.
    ///
    /// # Errors
    ///
    /// Whatever reading the next document fails with.
    fn next_approximation(&mut self) -> (r: Result<i32, LuceneError>)
        requires
            old(self).inv(),
            old(self).view().ids.doc < NO_MORE_DOCS,
        ensures
            old(self).infallible() ==> r is Ok,
            final(self).infallible() == old(self).infallible(),
            r matches Ok(d) ==> {
                &&& final(self).inv()
                &&& final(self).view().valid()
                &&& final(self).view() == old(self).view().at(d as int)
                &&& final(self).confirmed() == old(self).confirmed()
                &&& is_first_from(
                    old(self).view().ids.docs,
                    old(self).view().ids.doc + 1,
                    d as int,
                )
            },
    ;

    /// Advances to the first document of the approximation at or after
    /// `target` and returns it.
    ///
    /// # Errors
    ///
    /// Whatever reading that document fails with.
    fn advance_approximation(&mut self, target: i32) -> (r: Result<i32, LuceneError>)
        requires
            old(self).inv(),
            old(self).view().ids.doc < target,
        ensures
            old(self).infallible() ==> r is Ok,
            final(self).infallible() == old(self).infallible(),
            r matches Ok(d) ==> {
                &&& final(self).inv()
                &&& final(self).view().valid()
                &&& final(self).view() == old(self).view().at(d as int)
                &&& final(self).confirmed() == old(self).confirmed()
                &&& is_first_from(old(self).view().ids.docs, target as int, d as int)
            },
    ;

    /// Loads the documents of the approximation from the current one up to
    /// `up_to` (exclusive) into `bit_set`, shifted down by `offset`, and moves
    /// to the first one at or after `up_to`.
    ///
    /// # Errors
    ///
    /// Whatever reading the documents fails with.
    fn load_approximation(
        &mut self,
        up_to: i32,
        bit_set: &mut FixedBitSet,
        offset: i32,
    ) -> (r: Result<(), LuceneError>)
        requires
            old(self).inv(),
            forall|d: int| #[trigger]
                old(self).view().ids.docs.contains(d) && old(self).view().ids.read_from() <= d
                    < up_to ==> 0 <= d - offset < old(bit_set)@.len() && d - offset <= i32::MAX,
        ensures
            old(self).infallible() ==> r is Ok,
            final(self).infallible() == old(self).infallible(),
            final(bit_set)@.len() == old(bit_set)@.len(),
            r is Ok ==> {
                &&& final(self).inv()
                &&& final(self).view().valid()
                &&& final(self).view() == old(self).view().at(final(self).view().ids.doc)
                &&& final(self).confirmed() == old(self).confirmed()
                &&& is_first_from(
                    old(self).view().ids.docs,
                    (if up_to >= old(self).view().ids.read_from() {
                        up_to as int
                    } else {
                        old(self).view().ids.read_from()
                    }),
                    final(self).view().ids.doc,
                )
                &&& final(bit_set)@ == loaded_bits(
                    old(bit_set)@,
                    old(self).view().ids.docs,
                    old(self).view().ids.read_from(),
                    up_to as int,
                    offset as int,
                )
            },
    ;

    /// Returns the cost of the approximation.
    fn cost(&self) -> (r: i64)
        requires
            self.inv(),
        ensures
            r == self.view().cost,
    ;

    /// Returns whether the scorer has a two-phase view.
    fn has_two_phase(&self) -> (r: bool)
        requires
            self.inv(),
        ensures
            r == self.view().two_phase,
    ;

    /// Returns the cost of one call of [`Self::matches`], as an integer ordered
    /// like it; 0 without a two-phase view.
    fn match_cost(&self) -> (r: i32)
        requires
            self.inv(),
        ensures
            r == self.view().match_cost,
    ;

    /// Decides whether the current document is a match.
    ///
    /// # Errors
    ///
    /// Whatever reading the document fails with.
    fn matches(&mut self) -> (r: Result<bool, LuceneError>)
        requires
            old(self).inv(),
            old(self).view().ids.docs.contains(old(self).view().ids.doc),
        ensures
            old(self).infallible() ==> r is Ok,
            final(self).infallible() == old(self).infallible(),
            final(self).view() == old(self).view(),
            r is Ok ==> final(self).inv(),
            r is Ok ==> final(self).confirmed() == old(self).confirmed().push(
                old(self).view().ids.doc,
            ),
            r matches Ok(b) ==> b == old(self).view().hits.contains(old(self).view().ids.doc),
    ;

    /// Returns the end (exclusive) of a run of consecutive documents that match,
    /// which starts at the current one; the current document itself when none
    /// is known to match.
    ///
    /// # Errors
    ///
    /// Whatever reading the documents fails with.
    fn hits_run_end(&self) -> (r: Result<i32, LuceneError>)
        requires
            self.inv(),
            self.view().ids.docs.contains(self.view().ids.doc),
        ensures
            self.infallible() ==> r is Ok,
            r matches Ok(end) ==> {
                &&& end == (self.view().runs)(self.view().ids.doc)
                &&& end >= self.view().ids.doc
                &&& forall|d: int|
                    self.view().ids.doc <= d < end ==> #[trigger] self.view().hits.contains(d)
            },
    ;

    /// Loads the documents that match from the current one up to `up_to`
    /// (exclusive) into `bit_set`, shifted down by `offset`, and moves to the
    /// first document of the approximation at or after `up_to`.
    ///
    /// # Errors
    ///
    /// Whatever reading or confirming the documents fails with.
    fn load_hits(&mut self, up_to: i32, bit_set: &mut FixedBitSet, offset: i32) -> (r: Result<
        (),
        LuceneError,
    >)
        requires
            old(self).inv(),
            forall|d: int| #[trigger]
                old(self).view().ids.docs.contains(d) && old(self).view().ids.read_from() <= d
                    < up_to ==> 0 <= d - offset < old(bit_set)@.len() && d - offset <= i32::MAX,
        ensures
            old(self).infallible() ==> r is Ok,
            final(self).infallible() == old(self).infallible(),
            final(bit_set)@.len() == old(bit_set)@.len(),
            r is Ok ==> {
                &&& final(self).inv()
                &&& final(self).view().valid()
                &&& final(self).view() == old(self).view().at(final(self).view().ids.doc)
                &&& recorded_within(
                    old(self).confirmed(),
                    final(self).confirmed(),
                    old(self).view().ids.docs,
                    old(self).view().ids.read_from(),
                    up_to as int,
                )
                &&& is_first_from(
                    old(self).view().ids.docs,
                    (if up_to >= old(self).view().ids.read_from() {
                        up_to as int
                    } else {
                        old(self).view().ids.read_from()
                    }),
                    final(self).view().ids.doc,
                )
                &&& final(bit_set)@ == loaded_bits(
                    old(bit_set)@,
                    old(self).view().hits,
                    old(self).view().ids.read_from(),
                    up_to as int,
                    offset as int,
                )
            },
    {
        let ghost from = old(self).view().ids.read_from();
        let ghost docs = old(self).view().ids.docs;
        let ghost hits = old(self).view().hits;
        let mut doc: i32 = self.doc_id();
        if doc == -1 {
            doc = self.next_approximation()?;
        }
        assert(bit_set@ =~= loaded_bits(old(bit_set)@, hits, from, doc as int, offset as int));
        assert(self.confirmed().take(self.confirmed().len() as int) =~= self.confirmed());
        while doc < up_to
            invariant
                from == old(self).view().ids.read_from(),
                docs == old(self).view().ids.docs,
                hits == old(self).view().hits,
                old(self).view().valid(),
                self.inv(),
                self.view().valid(),
                self.infallible() == old(self).infallible(),
                self.view() == old(self).view().at(doc as int),
                doc >= from,
                is_first_from(docs, doc as int, doc as int),
                doc < up_to || is_first_from(
                    docs,
                    (if up_to >= from {
                        up_to as int
                    } else {
                        from
                    }),
                    doc as int,
                ),
                forall|d: int| #[trigger]
                    docs.contains(d) && from <= d < up_to ==> 0 <= d - offset < bit_set@.len()
                        && d - offset <= i32::MAX,
                recorded_within(
                    old(self).confirmed(),
                    self.confirmed(),
                    docs,
                    from,
                    up_to as int,
                ),
                bit_set@.len() == old(bit_set)@.len(),
                bit_set@ == loaded_bits(
                    old(bit_set)@,
                    hits,
                    from,
                    (if doc <= up_to { doc as int } else { up_to as int }),
                    offset as int,
                ),
            decreases NO_MORE_DOCS - doc,
        {
            let ghost was = doc as int;
            let ghost before = bit_set@;
            let ghost record = self.confirmed();
            assert(docs.contains(doc as int));
            if self.matches()? {
                bit_set.set((doc - offset) as usize);
            }
            proof {
                let start = old(self).confirmed();
                assert(self.confirmed().take(start.len() as int) =~= record.take(
                    start.len() as int,
                ));
            }
            doc = self.next_approximation()?;
            proof {
                let end = if doc <= up_to {
                    doc as int
                } else {
                    up_to as int
                };
                assert forall|i: int| 0 <= i < bit_set@.len() implies bit_set@[i]
                    == #[trigger] loaded_bits(old(bit_set)@, hits, from, end, offset as int)[i] by {
                    let d = i + offset;
                    if hits.contains(d) {
                        assert(docs.contains(d));
                    }
                }
                assert(bit_set@ =~= loaded_bits(
                    old(bit_set)@,
                    hits,
                    from,
                    end,
                    offset as int,
                ));
            }
        }
        assert(bit_set@ =~= loaded_bits(
            old(bit_set)@,
            hits,
            from,
            up_to as int,
            offset as int,
        )) by {
            assert forall|i: int| 0 <= i < bit_set@.len() implies bit_set@[i]
                == #[trigger] loaded_bits(old(bit_set)@, hits, from, up_to as int, offset as int)[i] by {
                let d = i + offset;
                if hits.contains(d) {
                    assert(docs.contains(d));
                }
            }
        }
        Ok(())
    }
}

/// A scorer that knows how great the scores in blocks of documents can be. Scores are integers
/// that are ordered like them.
pub trait BlockScorer: Scorer {
    /// The greatest score over all documents.
    spec fn greatest_score(&self) -> i32;

    /// The last document of the block that `target` is in.
    spec fn block_end(&self, target: i32) -> i32;

    /// The document that the scorer was last told to look ahead to.
    spec fn looking_at(&self) -> Option<i32>;

    /// Returns the greatest score over all documents.
    ///
    /// # Errors
    ///
    /// Whatever reading the scores fails with.
    fn max_score(&self) -> (r: Result<i32, LuceneError>)
        requires
            self.inv(),
        ensures
            self.infallible() ==> r is Ok,
            r matches Ok(score) ==> score == self.greatest_score(),
    ;

    /// Looks ahead to `target`, and returns the last document of the block that it is in.
    ///
    /// # Errors
    ///
    /// Whatever reading the scores fails with.
    fn advance_shallow(&mut self, target: i32) -> (r: Result<i32, LuceneError>)
        requires
            old(self).inv(),
        ensures
            old(self).infallible() ==> r is Ok,
            final(self).infallible() == old(self).infallible(),
            final(self).inv(),
            final(self).view() == old(self).view(),
            final(self).confirmed() == old(self).confirmed(),
            final(self).greatest_score() == old(self).greatest_score(),
            forall|t: i32| #[trigger] final(self).block_end(t) == old(self).block_end(t),
            r matches Ok(up_to) ==> up_to == old(self).block_end(target)
                && final(self).looking_at() == Some(target),
    ;
}

/// `after` is `before` once it was told to look ahead to `target`: no document was moved to.
pub open spec fn looked_ahead<S: BlockScorer>(
    before: S,
    after: S,
    target: i32,
    r: Result<i32, LuceneError>,
) -> bool {
    &&& before.infallible() ==> r is Ok
    &&& after.infallible() == before.infallible()
    &&& after.inv()
    &&& after.view() == before.view()
    &&& after.greatest_score() == before.greatest_score()
    &&& forall|t: i32| #[trigger] after.block_end(t) == before.block_end(t)
    &&& r matches Ok(up_to) ==> up_to == before.block_end(target) && after.looking_at() == Some(
        target,
    )
}

} // verus!
