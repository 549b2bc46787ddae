//! Skipping documents that cannot have a competitive score.

use vstd::prelude::*;

use crate::error::LuceneError;
use crate::search::doc_id_set_iterator::{is_first_from, DocIdSetIterator, NO_MORE_DOCS};

verus! {

/// The integer that stands for the greatest score in the order of single-precision numbers.
pub const GREATEST_SCORE: i32 = 0x7f7f_ffff;

/// Upper bounds of the scores of blocks of documents.
pub struct BlockBounds {
    /// The last document of the block that a document is in.
    pub ends: spec_fn(int) -> int,
    /// The greatest score in the block that a document is in.
    pub bounds: spec_fn(int) -> i32,
    /// The last document of a run of blocks, from the one that a document is in, whose
    /// scores are all less than a score; -1 when no such run is known.
    pub skips: spec_fn(int, i32) -> int,
}

impl BlockBounds {
    /// A block ends at or after each of its documents, and so does a run of blocks.
    pub open spec fn valid(self) -> bool {
        &&& forall|d: int|
            0 <= d <= NO_MORE_DOCS ==> d <= #[trigger] (self.ends)(d) <= NO_MORE_DOCS
        &&& forall|d: int, score: i32|
            0 <= d <= NO_MORE_DOCS ==> #[trigger] (self.skips)(d, score) == -1 || d <= (
            self.skips)(d, score) <= NO_MORE_DOCS
    }
}

/// Looks up the upper bounds of the scores of blocks of documents; scores are integers
/// ordered like them.
pub trait ScoreBounds: Sized {
    /// The bounds.
    spec fn bounds(&self) -> BlockBounds;

    /// The document whose block is looked at.
    spec fn looked_at(&self) -> int;

    /// Whether reading the bounds never fails.
    spec fn readable(&self) -> bool;

    /// Looks at the block that `target` is in, and returns its last document.
    ///
    /// # Errors
    ///
    /// Whatever reading the bounds fails with.
    fn advance_shallow(&mut self, target: i32) -> (r: Result<i32, LuceneError>)
        requires
            target >= 0,
        ensures
            old(self).readable() ==> r is Ok,
            final(self).readable() == old(self).readable(),
            final(self).bounds() == old(self).bounds(),
            r matches Ok(up_to) ==> up_to == (old(self).bounds().ends)(target as int)
                && old(self).bounds().valid() && final(self).looked_at() == target,
    ;

    /// Returns the greatest score in the block that is looked at.
    ///
    /// # Errors
    ///
    /// Whatever reading the bounds fails with.
    fn max_score(&mut self) -> (r: Result<i32, LuceneError>)
        ensures
            old(self).readable() ==> r is Ok,
            final(self).readable() == old(self).readable(),
            final(self).bounds() == old(self).bounds(),
            final(self).looked_at() == old(self).looked_at(),
            r matches Ok(score) ==> score == (old(self).bounds().bounds)(old(self).looked_at()),
    ;

    /// Returns the last document of a run of blocks, from the one that is looked at, whose
    /// scores are all less than `min_score`; -1 when no such run is known.
    ///
    /// # Errors
    ///
    /// Whatever reading the bounds fails with.
    fn skip_up_to(&mut self, min_score: i32) -> (r: Result<i32, LuceneError>)
        ensures
            old(self).readable() ==> r is Ok,
            final(self).readable() == old(self).readable(),
            final(self).bounds() == old(self).bounds(),
            final(self).looked_at() == old(self).looked_at(),
            r matches Ok(d) ==> d == (old(self).bounds().skips)(old(self).looked_at(), min_score),
    ;
}

/// The first document at or after `target` that is in a block with a competitive score, and
/// that document's block is the one looked at last; the end of the documents when there is
/// none.
pub open spec fn competitive_target(bounds: BlockBounds, min_score: i32, target: int) -> int
    decreases NO_MORE_DOCS - target,
{
    if target < 0 || target > NO_MORE_DOCS || (bounds.bounds)(target) >= min_score {
        target
    } else {
        let end = (bounds.ends)(target);
        let skip = (bounds.skips)(target, min_score);
        let next = if skip == -1 {
            end + 1
        } else {
            skip + 1
        };
        if end == NO_MORE_DOCS || skip == NO_MORE_DOCS || next <= target || next > NO_MORE_DOCS {
            NO_MORE_DOCS as int
        } else {
            competitive_target(bounds, min_score, next)
        }
    }
}

/// The document whose block is looked at last on the way from `target` to the first document
/// that is in a block with a competitive score.
pub open spec fn last_looked_at(bounds: BlockBounds, min_score: i32, target: int) -> int
    decreases NO_MORE_DOCS - target,
{
    if target < 0 || target > NO_MORE_DOCS || (bounds.bounds)(target) >= min_score {
        target
    } else {
        let end = (bounds.ends)(target);
        let skip = (bounds.skips)(target, min_score);
        let next = if skip == -1 {
            end + 1
        } else {
            skip + 1
        };
        if end == NO_MORE_DOCS || skip == NO_MORE_DOCS || next <= target || next > NO_MORE_DOCS {
            target
        } else {
            last_looked_at(bounds, min_score, next)
        }
    }
}

/// Iterates over the documents that may have a competitive score.
pub struct ImpactsDISI<I: DocIdSetIterator, B: ScoreBounds> {
    inner: I,
    max_score_cache: B,
    min_competitive_score: i32,
    up_to: i32,
    max_score: i32,
}

impl<I: DocIdSetIterator, B: ScoreBounds> ImpactsDISI<I, B> {
    /// The documents.
    pub closed spec fn source(&self) -> I {
        self.inner
    }

    /// The upper bounds of their scores.
    pub closed spec fn cache(&self) -> B {
        self.max_score_cache
    }

    /// Whether reading the documents and the bounds never fails.
    pub open spec fn infallible(&self) -> bool {
        self.source().infallible() && self.cache().readable()
    }

    /// The least competitive score.
    pub closed spec fn min_score(&self) -> i32 {
        self.min_competitive_score
    }

    /// The last document of the block that is known to be competitive.
    pub closed spec fn block_end(&self) -> int {
        self.up_to as int
    }

    /// The greatest score in that block.
    pub closed spec fn block_max(&self) -> i32 {
        self.max_score
    }

    /// Creates an iterator over all documents of `inner`.
    pub fn new(inner: I, max_score_cache: B) -> (r: Self)
        ensures
            r.source() == inner,
            r.cache() == max_score_cache,
            r.min_score() == 0,
            r.block_end() == NO_MORE_DOCS,
            r.block_max() == GREATEST_SCORE,
    {
        ImpactsDISI {
            inner,
            max_score_cache,
            min_competitive_score: 0,
            up_to: NO_MORE_DOCS,
            max_score: GREATEST_SCORE,
        }
    }

    /// Returns the upper bounds of the scores.
    pub fn get_max_score_cache(&mut self) -> (r: &mut B)
        ensures
            *r == old(self).cache(),
            final(self).cache() == *final(r),
            final(self).source() == old(self).source(),
            final(self).min_score() == old(self).min_score(),
            final(self).block_end() == old(self).block_end(),
            final(self).block_max() == old(self).block_max(),
    {
        &mut self.max_score_cache
    }

    /// Returns the documents.
    pub fn inner(&mut self) -> (r: &mut I)
        ensures
            *r == old(self).source(),
            final(self).source() == *final(r),
            final(self).cache() == old(self).cache(),
            final(self).min_score() == old(self).min_score(),
            final(self).block_end() == old(self).block_end(),
            final(self).block_max() == old(self).block_max(),
    {
        &mut self.inner
    }

    /// Leaves out the documents with lesser scores from now on.
    pub fn set_min_competitive_score(&mut self, min_competitive_score: i32)
        ensures
            final(self).source() == old(self).source(),
            final(self).cache() == old(self).cache(),
            final(self).block_max() == old(self).block_max(),
            min_competitive_score > old(self).min_score() ==> final(self).min_score()
                == min_competitive_score && final(self).block_end() == -1,
            min_competitive_score <= old(self).min_score() ==> *final(self) == *old(self),
    {
        if min_competitive_score > self.min_competitive_score {
            self.min_competitive_score = min_competitive_score;
            self.up_to = -1;
        }
    }

    /// Where an advance to `target` goes, before the documents are looked at.
    pub open spec fn target_of(&self, target: int) -> int {
        if target <= self.block_end() {
            target
        } else {
            competitive_target(self.cache().bounds(), self.min_score(), target)
        }
    }

    /// Whether `after` knows the block that an advance to `target` ends in, and leaves out
    /// the same scores by the same bounds.
    pub open spec fn knows_block_of(&self, target: int, after: Self) -> bool {
        let bounds = self.cache().bounds();
        let last = last_looked_at(bounds, self.min_score(), target);
        &&& after.min_score() == self.min_score()
        &&& after.cache().bounds() == bounds
        &&& after.block_end() == if target <= self.block_end() {
            self.block_end()
        } else {
            (bounds.ends)(last)
        }
        &&& after.block_max() == if target <= self.block_end() {
            self.block_max()
        } else {
            (bounds.bounds)(last)
        }
    }

    /// Returns the first document at or after `target` that may have a competitive score.
    ///
    /// # Errors
    ///
    /// Whatever reading the bounds fails with.
    fn advance_target(&mut self, target: i32) -> (r: Result<i32, LuceneError>)
        requires
            target >= 0,
        ensures
            old(self).cache().readable() ==> r is Ok,
            final(self).source() == old(self).source(),
            final(self).cache().readable() == old(self).cache().readable(),
            final(self).cache().bounds() == old(self).cache().bounds(),
            final(self).min_score() == old(self).min_score(),
            r matches Ok(d) ==> d == old(self).target_of(target as int) && d >= target && old(
                self,
            ).knows_block_of(target as int, *final(self)),
    {
        if target <= self.up_to {
            return Ok(target);
        }
        let mut at: i32 = target;
        self.up_to = self.max_score_cache.advance_shallow(at)?;
        self.max_score = self.max_score_cache.max_score()?;
        loop
            invariant
                0 <= target <= at,
                target > old(self).up_to,
                self.inner == old(self).inner,
                self.max_score_cache.readable() == old(self).max_score_cache.readable(),
                self.max_score_cache.bounds() == old(self).max_score_cache.bounds(),
                self.min_competitive_score == old(self).min_competitive_score,
                self.max_score_cache.bounds().valid(),
                self.max_score_cache.looked_at() == at,
                self.up_to == (self.max_score_cache.bounds().ends)(at as int),
                self.max_score == (self.max_score_cache.bounds().bounds)(at as int),
                competitive_target(
                    self.max_score_cache.bounds(),
                    self.min_competitive_score,
                    target as int,
                ) == competitive_target(
                    self.max_score_cache.bounds(),
                    self.min_competitive_score,
                    at as int,
                ),
                last_looked_at(self.max_score_cache.bounds(), self.min_competitive_score, target as int)
                    == last_looked_at(self.max_score_cache.bounds(), self.min_competitive_score, at as int),
            decreases NO_MORE_DOCS - at,
        {
            if self.max_score >= self.min_competitive_score {
                return Ok(at);
            }
            if self.up_to == NO_MORE_DOCS {
                return Ok(NO_MORE_DOCS);
            }
            assert(at <= (self.max_score_cache.bounds().ends)(at as int) <= NO_MORE_DOCS);
            let skip_up_to: i32 = self.max_score_cache.skip_up_to(self.min_competitive_score)?;
            assert((self.max_score_cache.bounds().skips)(at as int, self.min_competitive_score)
                == skip_up_to);
            if skip_up_to == -1 {
                at = self.up_to + 1;
            } else if skip_up_to == NO_MORE_DOCS {
                return Ok(NO_MORE_DOCS);
            } else {
                at = skip_up_to + 1;
            }
            self.up_to = self.max_score_cache.advance_shallow(at)?;
            self.max_score = self.max_score_cache.max_score()?;
        }
    }

    /// Moves to the first document at or after the current one that may have a competitive
    /// score; does nothing before the first document.
    ///
    /// # Errors
    ///
    /// Whatever reading the documents or the bounds fails with.
    pub fn ensure_competitive(&mut self) -> (r: Result<(), LuceneError>)
        requires
            old(self).source().inv(),
        ensures
            old(self).infallible() ==> r is Ok,
            final(self).infallible() == old(self).infallible(),
            final(self).min_score() == old(self).min_score(),
            old(self).source().view().doc == -1 ==> r is Ok && *final(self) == *old(self),
            r is Ok && old(self).source().view().doc >= 0 ==> {
                let before = old(self).source().view();
                let goal = old(self).target_of(before.doc);
                &&& old(self).knows_block_of(before.doc, *final(self))
                &&& final(self).source().inv()
                &&& final(self).source().reported_cost() == old(self).source().reported_cost()
                &&& final(self).source().view() == before.at(final(self).source().view().doc)
                &&& if goal == before.doc {
                    final(self).source().view().doc == before.doc
                } else {
                    is_first_from(before.docs, goal, final(self).source().view().doc)
                }
            },
    {
        let doc: i32 = self.inner.doc_id();
        if doc == -1 {
            return Ok(());
        }
        let goal: i32 = self.advance_target(doc)?;
        if goal != doc {
            self.inner.advance(goal)?;
        }
        Ok(())
    }

    /// Returns the current document.
    pub fn doc_id(&self) -> (r: i32)
        requires
            self.source().inv(),
        ensures
            r == self.source().view().doc,
    {
        self.inner.doc_id()
    }

    /// Advances to the first document at or after `target` that may have a competitive
    /// score.
    ///
    /// # Errors
    ///
    /// Whatever reading the documents or the bounds fails with.
    pub fn advance(&mut self, target: i32) -> (r: Result<i32, LuceneError>)
        requires
            old(self).source().inv(),
            old(self).source().view().doc < target,
            target >= 0,
        ensures
            old(self).infallible() ==> r is Ok,
            final(self).infallible() == old(self).infallible(),
            final(self).min_score() == old(self).min_score(),
            r matches Ok(d) ==> {
                &&& old(self).knows_block_of(target as int, *final(self))
                &&& final(self).source().inv()
                &&& final(self).source().reported_cost() == old(self).source().reported_cost()
                &&& final(self).source().view() == old(self).source().view().at(d as int)
                &&& is_first_from(
                    old(self).source().view().docs,
                    old(self).target_of(target as int),
                    d as int,
                )
            },
    {
        let goal: i32 = self.advance_target(target)?;
        self.inner.advance(goal)
    }

    /// Advances to the next document that may have a competitive score.
    ///
    /// # Errors
    ///
    /// Whatever reading the documents or the bounds fails with.
    pub fn next_doc(&mut self) -> (r: Result<i32, LuceneError>)
        requires
            old(self).source().inv(),
            old(self).source().view().doc < NO_MORE_DOCS,
        ensures
            old(self).infallible() ==> r is Ok,
            final(self).infallible() == old(self).infallible(),
            final(self).min_score() == old(self).min_score(),
            r matches Ok(d) ==> {
                let before = old(self).source().view();
                &&& old(self).knows_block_of(before.doc + 1, *final(self))
                &&& final(self).source().inv()
                &&& final(self).source().reported_cost() == old(self).source().reported_cost()
                &&& final(self).source().view() == before.at(d as int)
                &&& is_first_from(
                    before.docs,
                    old(self).target_of(before.doc + 1),
                    d as int,
                )
            },
    {
        let doc: i32 = self.inner.doc_id();
        if doc < self.up_to {
            return self.inner.next_doc();
        }
        self.advance(doc + 1)
    }

    /// Returns an estimate of the number of documents.
    pub fn cost(&self) -> (r: i64)
        requires
            self.source().inv(),
        ensures
            r == self.source().reported_cost(),
    {
        self.inner.cost()
    }
}

/// Whether no document has a greater score than the bounds say, where `best` gives the
/// score of each document.
pub open spec fn bounds_hold(bounds: BlockBounds, best: spec_fn(int) -> i32) -> bool {
    &&& forall|t: int, d: int|
        0 <= t <= d <= #[trigger] (bounds.ends)(t) ==> #[trigger] best(d) <= (bounds.bounds)(t)
    &&& forall|t: int, d: int, score: i32|
        0 <= t <= d <= #[trigger] (bounds.skips)(t, score) ==> #[trigger] best(d) < score
}

/// No document with a competitive score is skipped.
pub proof fn skipped_documents_are_not_competitive(
    bounds: BlockBounds,
    best: spec_fn(int) -> i32,
    min_score: i32,
    target: int,
    doc: int,
)
    requires
        bounds.valid(),
        bounds_hold(bounds, best),
        0 <= target <= doc,
        doc < competitive_target(bounds, min_score, target),
        doc <= NO_MORE_DOCS,
    ensures
        best(doc) < min_score,
    decreases NO_MORE_DOCS - target,
{
    let end = (bounds.ends)(target);
    let skip = (bounds.skips)(target, min_score);
    if doc <= end {
        assert(best(doc) <= (bounds.bounds)(target));
    } else if skip != -1 && doc <= skip {
        assert(best(doc) < min_score);
    } else {
        let next = if skip == -1 {
            end + 1
        } else {
            skip + 1
        };
        skipped_documents_are_not_competitive(bounds, best, min_score, next, doc);
    }
}

} // verus!
