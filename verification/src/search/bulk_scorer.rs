//! Scoring of ranges of documents.
//!
//! Scores are floating-point numbers elsewhere; here a score is an integer that is
//! ordered like it, with 0 for the score 0.

use vstd::prelude::*;

use crate::search::collector::{
    docs_in, docs_in_are_exact, docs_in_none, docs_in_same, docs_in_split, CollectionError,
};
use crate::search::dense_conjunction_bulk_scorer::accepts;
use crate::util::bits::Bits;

verus! {

/// The documents of `scores` in `[from, to)` in increasing order, each with its
/// score.
pub open spec fn entries_in(scores: Map<int, i32>, from: int, to: int) -> Seq<(int, i32)> {
    docs_in(scores.dom(), from, to).map_values(|d: int| (d, scores[d]))
}

/// `reported` holds what may be reported of `scores` in `[from, to)`: accepted
/// documents with at most their score, and each accepted document whose score is
/// at least `floor` with that score.
pub open spec fn reports<B: Bits>(
    scores: Map<int, i32>,
    accept_docs: Option<&B>,
    from: int,
    to: int,
    floor: i32,
    reported: Map<int, i32>,
) -> bool {
    &&& forall|d: int| #[trigger]
        reported.dom().contains(d) ==> {
            &&& from <= d < to
            &&& scores.dom().contains(d)
            &&& accepts(accept_docs, d)
            &&& 0 <= reported[d] <= scores[d]
        }
    &&& forall|d: int| #[trigger]
        scores.dom().contains(d) && from <= d < to && accepts(accept_docs, d) && scores[d] >= floor
            ==> reported.dom().contains(d) && reported[d] == scores[d]
}

/// `entries` are what may be reported of `scores` in `[from, to)`, in increasing order.
pub open spec fn is_report<B: Bits>(
    scores: Map<int, i32>,
    accept_docs: Option<&B>,
    from: int,
    to: int,
    floor: i32,
    entries: Seq<(int, i32)>,
) -> bool {
    exists|reported: Map<int, i32>| #[trigger]
        reports(scores, accept_docs, from, to, floor, reported) && entries == entries_in(
            reported,
            from,
            to,
        )
}

/// `entries` are what may be reported of `scores` from the start of `[from, to)` on, up to some
/// document of it or up to its end.
pub open spec fn is_report_so_far<B: Bits>(
    scores: Map<int, i32>,
    accept_docs: Option<&B>,
    from: int,
    to: int,
    floor: i32,
    entries: Seq<(int, i32)>,
) -> bool {
    exists|end: int|
        from <= end && (end <= to || end == from) && #[trigger] is_report(
            scores,
            accept_docs,
            from,
            end,
            floor,
            entries,
        )
}

/// A report holds each accepted document of the range whose score is at least `floor`, with that
/// score, and only accepted documents of the range that are in `scores`; each once, in increasing
/// order.
pub proof fn reports_are_exact<B: Bits>(
    scores: Map<int, i32>,
    accept_docs: Option<&B>,
    from: int,
    to: int,
    floor: i32,
    entries: Seq<(int, i32)>,
)
    requires
        is_report(scores, accept_docs, from, to, floor, entries),
    ensures
        forall|d: int| #[trigger]
            scores.dom().contains(d) && from <= d < to && accepts(accept_docs, d) && scores[d]
                >= floor ==> entries.contains((d, scores[d])),
        forall|i: int|
            0 <= i < entries.len() ==> {
                &&& from <= (#[trigger] entries[i]).0 < to
                &&& scores.dom().contains(entries[i].0)
                &&& accepts(accept_docs, entries[i].0)
                &&& 0 <= entries[i].1 <= scores[entries[i].0]
            },
        forall|i: int, j: int|
            0 <= i < j < entries.len() ==> (#[trigger] entries[i]).0 < (#[trigger] entries[j]).0,
{
    let reported = choose|reported: Map<int, i32>| #[trigger]
        reports(scores, accept_docs, from, to, floor, reported) && entries == entries_in(
            reported,
            from,
            to,
        );
    let docs = docs_in(reported.dom(), from, to);
    docs_in_are_exact(reported.dom(), from, to);
    assert forall|d: int| #[trigger]
        scores.dom().contains(d) && from <= d < to && accepts(accept_docs, d) && scores[d]
            >= floor implies entries.contains((d, scores[d])) by {
        assert(reported.dom().contains(d));
        assert(docs.contains(d));
        let i = choose|i: int| 0 <= i < docs.len() && docs[i] == d;
        assert(entries[i] == (d, scores[d]));
    }
    assert forall|i: int| 0 <= i < entries.len() implies {
        &&& from <= (#[trigger] entries[i]).0 < to
        &&& scores.dom().contains(entries[i].0)
        &&& accepts(accept_docs, entries[i].0)
        &&& 0 <= entries[i].1 <= scores[entries[i].0]
    } by {
        assert(entries[i].0 == docs[i]);
    }
    assert forall|i: int, j: int| 0 <= i < j < entries.len() implies (#[trigger] entries[i]).0 < (
    #[trigger] entries[j]).0 by {
        assert(entries[i].0 == docs[i] && entries[j].0 == docs[j]);
    }
}

/// Where no score is below `floor`, a report is made of all accepted documents of the range, each
/// with its score.
pub proof fn full_reports_are_exact<B: Bits>(
    scores: Map<int, i32>,
    accept_docs: Option<&B>,
    from: int,
    to: int,
    floor: i32,
    entries: Seq<(int, i32)>,
)
    requires
        is_report(scores, accept_docs, from, to, floor, entries),
        forall|d: int| #[trigger]
            scores.dom().contains(d) && from <= d < to && accepts(accept_docs, d) ==> scores[d]
                >= floor,
    ensures
        entries == entries_in(
            scores.restrict(Set::new(|d: int| accepts(accept_docs, d))),
            from,
            to,
        ),
{
    let reported = choose|reported: Map<int, i32>| #[trigger]
        reports(scores, accept_docs, from, to, floor, reported) && entries == entries_in(
            reported,
            from,
            to,
        );
    let all = scores.restrict(Set::new(|d: int| accepts(accept_docs, d)));
    assert forall|d: int| from <= d < to implies reported.dom().contains(d)
        == #[trigger] all.dom().contains(d) by {
        assert(all.dom().contains(d) == (scores.dom().contains(d) && accepts(accept_docs, d)));
    }
    docs_in_same(reported.dom(), all.dom(), from, to);
    docs_in_are_exact(all.dom(), from, to);
    assert forall|i: int| 0 <= i < entries.len() implies #[trigger] entries[i] == entries_in(
        all,
        from,
        to,
    )[i] by {
        let d = docs_in(all.dom(), from, to)[i];
        assert(all.dom().contains(d));
        assert(scores.dom().contains(d));
        assert(reported[d] == scores[d]);
    }
    assert(entries =~= entries_in(all, from, to));
}

/// `after` holds what may be left of `before` after reporting up to `max`: no
/// document before `next`, and each accepted document from `max` on whose score
/// is at least `floor` with that score.
pub open spec fn carried<B: Bits>(
    before: Map<int, i32>,
    after: Map<int, i32>,
    accept_docs: Option<&B>,
    max: int,
    next: int,
    floor: i32,
) -> bool {
    &&& forall|d: int| #[trigger]
        after.dom().contains(d) ==> {
            &&& d >= next
            &&& before.dom().contains(d)
            &&& 0 <= after[d] <= before[d]
        }
    &&& forall|d: int| #[trigger]
        before.dom().contains(d) && d >= max && accepts(accept_docs, d) && before[d] >= floor
            ==> after.dom().contains(d) && after[d] == before[d]
}

/// The entries of a range are those of its parts.
pub proof fn entries_of_parts(
    a: Map<int, i32>,
    b: Map<int, i32>,
    from: int,
    done: int,
    start: int,
    end: int,
)
    requires
        from <= done <= start <= end,
        forall|d: int| #[trigger] a.dom().contains(d) ==> d < done,
        forall|d: int| #[trigger] b.dom().contains(d) ==> start <= d < end,
    ensures
        entries_in(a.union_prefer_right(b), from, end) == entries_in(a, from, done) + entries_in(
            b,
            start,
            end,
        ),
{
    let u = a.union_prefer_right(b);
    docs_in_split(u.dom(), from, done, end);
    docs_in_split(u.dom(), done, start, end);
    docs_in_none(u.dom(), done, start);
    docs_in_same(u.dom(), a.dom(), from, done);
    docs_in_same(u.dom(), b.dom(), start, end);
    docs_in_are_exact(u.dom(), from, done);
    docs_in_are_exact(u.dom(), start, end);
    assert(entries_in(u, from, end) =~= entries_in(a, from, done) + entries_in(b, start, end));
}

/// `now` holds what may be left of `all` after reporting up to `from`: each accepted document from
/// `from` on whose score is at least `floor` has that score.
pub open spec fn kept<B: Bits>(
    all: Map<int, i32>,
    now: Map<int, i32>,
    accept_docs: Option<&B>,
    from: int,
    floor: i32,
) -> bool {
    &&& forall|d: int| #[trigger]
        now.dom().contains(d) ==> all.dom().contains(d) && now[d] <= all[d]
    &&& forall|d: int| #[trigger]
        all.dom().contains(d) && d >= from && accepts(accept_docs, d) && all[d] >= floor
            ==> now.dom().contains(d) && now[d] == all[d]
}

/// What is reported of a range, and then of what is left of the next one, is what may be reported
/// of both.
pub proof fn reports_of_parts<B: Bits>(
    all: Map<int, i32>,
    now: Map<int, i32>,
    accept_docs: Option<&B>,
    min: int,
    from: int,
    end: int,
    floor0: i32,
    floor: i32,
    first: Map<int, i32>,
    second: Map<int, i32>,
)
    requires
        min <= from <= end,
        floor0 <= floor,
        kept(all, now, accept_docs, from, floor0),
        reports(all, accept_docs, min, from, floor0, first),
        reports(now, accept_docs, from, end, floor, second),
    ensures
        reports(all, accept_docs, min, end, floor, first.union_prefer_right(second)),
{
    let both = first.union_prefer_right(second);
    assert forall|d: int| #[trigger] both.dom().contains(d) implies {
        &&& min <= d < end
        &&& all.dom().contains(d)
        &&& accepts(accept_docs, d)
        &&& 0 <= both[d] <= all[d]
    } by {
        if second.dom().contains(d) {
            assert(now.dom().contains(d));
        } else {
            assert(first.dom().contains(d));
        }
    }
    assert forall|d: int| #[trigger]
        all.dom().contains(d) && min <= d < end && accepts(accept_docs, d) && all[d] >= floor implies
        both.dom().contains(d) && both[d] == all[d] by {
        if d < from {
            assert(first.dom().contains(d));
            assert(!second.dom().contains(d));
        } else {
            assert(now.dom().contains(d) && now[d] == all[d]);
            assert(second.dom().contains(d));
        }
    }
}

/// What is reported of a range holds what may be reported of its first part.
pub proof fn reports_of_first_part<B: Bits>(
    scores: Map<int, i32>,
    accept_docs: Option<&B>,
    from: int,
    end: int,
    to: int,
    floor: i32,
    reported: Map<int, i32>,
) -> (first: Map<int, i32>)
    requires
        reports(scores, accept_docs, from, to, floor, reported),
        from <= end <= to,
    ensures
        reports(scores, accept_docs, from, end, floor, first),
        entries_in(first, from, end) == entries_in(reported, from, end),
{
    let first = reported.restrict(Set::new(|d: int| d < end));
    assert forall|d: int| #[trigger] first.dom().contains(d) implies reported.dom().contains(d) by {
    }
    docs_in_same(first.dom(), reported.dom(), from, end);
    docs_in_are_exact(first.dom(), from, end);
    assert(entries_in(first, from, end) =~= entries_in(reported, from, end));
    first
}

/// Receives documents with their scores.
pub trait ScoreCollector {
    /// The documents received so far, with their scores.
    spec fn collected(&self) -> Seq<(int, i32)>;

    /// The internal invariant of the implementation.
    spec fn inv(&self) -> bool;

    /// Whether collection never ends early.
    spec fn infallible(&self) -> bool;

    /// Whether `doc` can be received.
    spec fn takes(&self, doc: int) -> bool;

    /// Documents with a lesser score need not be reported.
    spec fn floor(&self) -> i32;

    /// Whether [`Self::floor`] does not change.
    spec fn steady(&self) -> bool;

    /// Whether [`Self::collect`] has ended the collection of the leaf.
    spec fn ended(&self) -> bool;

    /// Returns the score below which documents need not be reported.
    fn min_competitive_score(&self) -> (r: i32)
        requires
            self.inv(),
        ensures
            r == self.floor(),
    ;

    /// Receives a document.
    ///
    /// # Errors
    ///
    /// [`CollectionError::CollectionTerminated`] to end the collection of the leaf.
    fn collect(&mut self, doc: i32, score: i32) -> (r: Result<(), CollectionError>)
        requires
            old(self).inv(),
            old(self).takes(doc as int),
        ensures
            old(self).infallible() ==> r is Ok,
            final(self).infallible() == old(self).infallible(),
            final(self).steady() == old(self).steady(),
            final(self).floor() >= old(self).floor(),
            old(self).steady() ==> final(self).floor() == old(self).floor(),
            forall|d: int| #[trigger] final(self).takes(d) == old(self).takes(d),
            r is Ok ==> {
                &&& final(self).inv()
                &&& final(self).ended() == old(self).ended()
                &&& final(self).collected() == old(self).collected().push((doc as int, score))
            },
            r matches Err(CollectionError::CollectionTerminated) ==> final(self).ended(),
            r is Err ==> final(self).collected() == old(self).collected() || final(
                self).collected() == old(self).collected().push((doc as int, score)),
    ;
}

/// Reports the documents of ranges that follow each other, with their scores.
pub trait BulkScorer {
    /// The documents that are left to report, with their scores.
    spec fn remaining(&self) -> Map<int, i32>;

    /// The internal invariant of the implementation.
    spec fn inv(&self) -> bool;

    /// Whether scoring never fails.
    spec fn infallible(&self) -> bool;

    /// What [`Self::cost`] returns.
    spec fn reported_cost(&self) -> i64;

    /// The document that the last call of [`Self::score`] returned.
    spec fn last_next(&self) -> int;

    /// Returns an estimate of the number of documents.
    fn cost(&self) -> (r: i64)
        requires
            self.inv(),
        ensures
            r == self.reported_cost(),
    ;

    /// Reports the accepted documents of `[min, max)` in increasing order, and
    /// returns a document at or after `max` before which nothing is left.
    ///
    /// The documents that are left to report in the range are documents that the collector
    /// takes, and that the bits speak of. Those whose score is less than the collector asks for
    /// may be left out, or reported with a lesser score.
    ///
    /// # Errors
    ///
    /// What the scorer or the collector fails with.
    fn score<C: ScoreCollector, B: Bits>(
        &mut self,
        collector: &mut C,
        accept_docs: Option<&B>,
        min: i32,
        max: i32,
    ) -> (r: Result<i32, CollectionError>)
        requires
            old(self).inv(),
            old(collector).inv(),
            0 <= min <= max,
            forall|d: int| #[trigger]
                old(self).remaining().dom().contains(d) && min <= d < max ==> {
                    &&& old(collector).takes(d)
                    &&& accept_docs matches Some(bits) ==> d < bits.bit_seq().len()
                },
        ensures
            old(self).infallible() && old(collector).infallible() ==> r is Ok,
            final(collector).infallible() == old(collector).infallible(),
            final(collector).steady() == old(collector).steady(),
            final(collector).floor() >= old(collector).floor(),
            old(collector).steady() ==> final(collector).floor() == old(collector).floor(),
            forall|d: int| #[trigger] final(collector).takes(d) == old(collector).takes(d),
            r is Err ==> exists|entries: Seq<(int, i32)>| #[trigger]
                is_report_so_far(
                    old(self).remaining(),
                    accept_docs,
                    min as int,
                    max as int,
                    final(collector).floor(),
                    entries,
                ) && final(collector).collected() == old(collector).collected() + entries,
            r matches Err(CollectionError::CollectionTerminated) ==> final(collector).ended(),
            r matches Ok(next) ==> {
                &&& final(self).inv()
                &&& final(self).infallible() == old(self).infallible()
                &&& final(self).reported_cost() == old(self).reported_cost()
                &&& final(collector).inv()
                &&& final(collector).ended() == old(collector).ended()
                &&& next >= max
                &&& next == final(self).last_next()
                &&& carried(
                    old(self).remaining(),
                    final(self).remaining(),
                    accept_docs,
                    max as int,
                    next as int,
                    final(collector).floor(),
                )
                &&& exists|reported: Map<int, i32>| #[trigger]
                    reports(
                        old(self).remaining(),
                        accept_docs,
                        min as int,
                        max as int,
                        final(collector).floor(),
                        reported,
                    ) && final(collector).collected() == old(collector).collected() + entries_in(
                        reported,
                        min as int,
                        max as int,
                    )
            },
    ;
}

} // verus!
