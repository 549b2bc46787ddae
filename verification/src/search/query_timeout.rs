//! Limits on the time of a search.

use vstd::prelude::*;

use crate::search::bulk_scorer::{
    carried, entries_in, entries_of_parts, is_report, is_report_so_far, kept, reports,
    reports_of_parts, BulkScorer, ScoreCollector,
};
use crate::search::collector::{docs_in_none, CollectionError};
use crate::search::dense_conjunction_bulk_scorer::accepts;
use crate::util::bits::Bits;

verus! {

/// The number of documents that are reported before the time is looked at again; it grows by half
/// each time.
pub const INTERVAL: i64 = 100;

/// Says when the time of a search is over.
pub trait QueryTimeout {
    /// Returns whether the time is over. What it is depends on when it is asked for.
    fn should_exit(&self) -> (r: bool);
}

/// Whether there is a limit of time, and the answer that it is over may come.
pub open spec fn may_run_out<T: QueryTimeout>(timeout: Option<&T>) -> bool {
    timeout matches Some(t) && call_ensures(T::should_exit, (t,), true)
}

/// `entries` are what may be reported of `scores` in a part of `[from, to)`, from its start up to a
/// document before its end.
pub open spec fn is_partial_report<B: Bits>(
    scores: Map<int, i32>,
    accept_docs: Option<&B>,
    from: int,
    to: int,
    floor: i32,
    entries: Seq<(int, i32)>,
) -> bool {
    exists|end: int|
        from <= end < to && #[trigger] is_report(scores, accept_docs, from, end, floor, entries)
}

/// What is reported of a range part by part is what may be reported of it.
proof fn lemma_reports_join<B: Bits>(
    all: Map<int, i32>,
    now: Map<int, i32>,
    after: Map<int, i32>,
    accept_docs: Option<&B>,
    min: int,
    from: int,
    to: int,
    next: int,
    end: int,
    floor0: i32,
    floor: i32,
    first: Map<int, i32>,
    second: Map<int, i32>,
)
    requires
        min <= from <= to <= end <= next,
        floor0 <= floor,
        kept(all, now, accept_docs, from, floor0),
        carried(now, after, accept_docs, to, next, floor),
        reports(all, accept_docs, min, from, floor0, first),
        reports(now, accept_docs, from, to, floor, second),
    ensures
        kept(all, after, accept_docs, end, floor),
        reports(all, accept_docs, min, end, floor, first.union_prefer_right(second)),
        entries_in(first.union_prefer_right(second), min, end) == entries_in(first, min, from)
            + entries_in(second, from, to),
{
    let both = first.union_prefer_right(second);
    reports_of_parts(all, now, accept_docs, min, from, to, floor0, floor, first, second);
    assert forall|d: int| #[trigger] after.dom().contains(d) implies all.dom().contains(d)
        && after[d] <= all[d] by {
        assert(now.dom().contains(d));
    }
    assert forall|d: int| #[trigger]
        all.dom().contains(d) && d >= end && accepts(accept_docs, d) && all[d] >= floor implies
        after.dom().contains(d) && after[d] == all[d] by {
        assert(now.dom().contains(d) && now[d] == all[d]);
    }
    assert forall|d: int| #[trigger]
        all.dom().contains(d) && min <= d < end && accepts(accept_docs, d) && all[d] >= floor implies
        both.dom().contains(d) && both[d] == all[d] by {
        if d >= to {
            assert(now.dom().contains(d) && now[d] == all[d]);
            assert(after.dom().contains(d));
        }
    }
    let none = Map::<int, i32>::empty();
    entries_of_parts(first, second, min, from, from, to);
    entries_of_parts(both, none, min, to, to, end);
    assert(both.union_prefer_right(none) =~= both);
    docs_in_none(none.dom(), to, end);
    assert(entries_in(both, min, end) =~= entries_in(first, min, from) + entries_in(
        second,
        from,
        to,
    ));
}

/// The end of the part of `[from, max)` that holds no more than `interval` documents.
pub open spec fn part_end(from: i32, max: i32, interval: i64) -> i32 {
    if max - from > interval {
        (from + interval) as i32
    } else {
        max
    }
}

/// A part of `[from, max)` was reported, after which nothing is left before `end`.
pub open spec fn is_part<S: BulkScorer, C: ScoreCollector, B: Bits>(
    scorer: S,
    after_scorer: S,
    collector: C,
    after: C,
    accept_docs: Option<&B>,
    from: i32,
    to: i32,
    next: i32,
) -> bool {
    &&& next >= to
    &&& carried(
        scorer.remaining(),
        after_scorer.remaining(),
        accept_docs,
        to as int,
        next as int,
        after.floor(),
    )
    &&& exists|reported: Map<int, i32>| #[trigger]
        reports(
            scorer.remaining(),
            accept_docs,
            from as int,
            to as int,
            after.floor(),
            reported,
        ) && after.collected() == collector.collected() + entries_in(
            reported,
            from as int,
            to as int,
        )
}

/// Reports the accepted documents of the first part of `[from, max)`, unless the time is over as
/// `over` says. Returns a document before which nothing is left, or `None` when the time is over.
///
/// # Errors
///
/// What the scorer or the collector fails with.
pub fn score_part<S: BulkScorer, C: ScoreCollector, B: Bits>(
    over: bool,
    scorer: &mut S,
    collector: &mut C,
    accept_docs: Option<&B>,
    from: i32,
    max: i32,
    interval: i64,
) -> (r: Result<Option<i32>, CollectionError>)
    requires
        old(scorer).inv(),
        old(collector).inv(),
        0 <= from < max,
        interval > 0,
        forall|d: int| #[trigger]
            old(scorer).remaining().dom().contains(d) && from <= d < max ==> {
                &&& old(collector).takes(d)
                &&& accept_docs matches Some(bits) ==> d < bits.bit_seq().len()
            },
    ensures
        over ==> {
            &&& r matches Ok(None)
            &&& *final(scorer) == *old(scorer)
            &&& *final(collector) == *old(collector)
        },
        !over ==> !(r matches Ok(None)),
        old(scorer).infallible() && old(collector).infallible() ==> r is Ok,
        final(collector).infallible() == old(collector).infallible(),
        final(collector).floor() >= old(collector).floor(),
        forall|d: int| #[trigger] final(collector).takes(d) == old(collector).takes(d),
        r is Err ==> exists|entries: Seq<(int, i32)>| #[trigger]
            is_report_so_far(
                old(scorer).remaining(),
                accept_docs,
                from as int,
                part_end(from, max, interval) as int,
                final(collector).floor(),
                entries,
            ) && final(collector).collected() == old(collector).collected() + entries,
        r matches Err(CollectionError::CollectionTerminated) ==> final(collector).ended(),
        r is Ok ==> final(collector).ended() == old(collector).ended(),
        r matches Ok(Some(next)) ==> {
            &&& final(scorer).inv()
            &&& final(scorer).infallible() == old(scorer).infallible()
            &&& final(collector).inv()
            &&& is_part(
                *old(scorer),
                *final(scorer),
                *old(collector),
                *final(collector),
                accept_docs,
                from,
                part_end(from, max, interval),
                next,
            )
        },
{
    if over {
        return Ok(None);
    }
    let to: i32 = if (max - from) as i64 > interval {
        from + interval as i32
    } else {
        max
    };
    assert(to == part_end(from, max, interval));
    let next: i32 = scorer.score(collector, accept_docs, from, to)?;
    Ok(Some(next))
}

/// Reports the accepted documents of `[min, max)` in increasing order, part by part, and returns
/// whether all were reported before the time was over.
///
/// # Errors
///
/// What the scorer or the collector fails with.
pub fn score_within<T: QueryTimeout, S: BulkScorer, C: ScoreCollector, B: Bits>(
    timeout: &T,
    scorer: &mut S,
    collector: &mut C,
    accept_docs: Option<&B>,
    min: i32,
    max: i32,
) -> (r: Result<bool, CollectionError>)
    requires
        old(scorer).inv(),
        old(collector).inv(),
        0 <= min <= max,
        forall|d: int| #[trigger]
            old(scorer).remaining().dom().contains(d) && min <= d < max ==> {
                &&& old(collector).takes(d)
                &&& accept_docs matches Some(bits) ==> d < bits.bit_seq().len()
            },
    ensures
        old(scorer).infallible() && old(collector).infallible() ==> r is Ok,
        final(collector).infallible() == old(collector).infallible(),
        final(collector).floor() >= old(collector).floor(),
        forall|d: int| #[trigger] final(collector).takes(d) == old(collector).takes(d),
        r is Ok ==> final(scorer).inv() && final(scorer).infallible() == old(scorer).infallible()
            && final(collector).inv() && final(collector).ended() == old(collector).ended(),
        r matches Err(CollectionError::CollectionTerminated) ==> final(collector).ended(),
        r is Err ==> exists|entries: Seq<(int, i32)>| #[trigger]
            is_report_so_far(
                old(scorer).remaining(),
                accept_docs,
                min as int,
                max as int,
                final(collector).floor(),
                entries,
            ) && final(collector).collected() == old(collector).collected() + entries,
        r matches Ok(false) ==> call_ensures(T::should_exit, (timeout,), true),
        r matches Ok(true) ==> exists|entries: Seq<(int, i32)>| #[trigger]
            is_report(
                old(scorer).remaining(),
                accept_docs,
                min as int,
                max as int,
                final(collector).floor(),
                entries,
            ) && final(collector).collected() == old(collector).collected() + entries,
        r matches Ok(false) ==> exists|entries: Seq<(int, i32)>| #[trigger]
            is_partial_report(
                old(scorer).remaining(),
                accept_docs,
                min as int,
                max as int,
                final(collector).floor(),
                entries,
            ) && final(collector).collected() == old(collector).collected() + entries,
{
    let ghost all = scorer.remaining();
    let ghost mut reported: Map<int, i32> = Map::empty();
    let mut from: i32 = min;
    let mut interval: i64 = INTERVAL;
    proof {
        docs_in_none(reported.dom(), min as int, min as int);
        assert(collector.collected() + entries_in(reported, min as int, min as int)
            =~= collector.collected());
    }
    while from < max
        invariant
            0 <= min <= from <= max,
            0 < interval <= 0x6000_0000,
            scorer.inv(),
            collector.inv(),
            forall|d: int| #[trigger]
                all.dom().contains(d) && min <= d < max ==> {
                    &&& old(collector).takes(d)
                    &&& accept_docs matches Some(bits) ==> d < bits.bit_seq().len()
                },
            scorer.infallible() == old(scorer).infallible(),
            collector.infallible() == old(collector).infallible(),
            collector.ended() == old(collector).ended(),
            collector.floor() >= old(collector).floor(),
            forall|d: int| #[trigger] collector.takes(d) == old(collector).takes(d),
            all == old(scorer).remaining(),
            kept(all, scorer.remaining(), accept_docs, from as int, collector.floor()),
            reports(all, accept_docs, min as int, from as int, collector.floor(), reported),
            collector.collected() == old(collector).collected() + entries_in(
                reported,
                min as int,
                from as int,
            ),
        decreases max - from,
    {
        let ghost now = scorer.remaining();
        let ghost before = collector.collected();
        let ghost floor0 = collector.floor();
        let over: bool = timeout.should_exit();
        proof {
            assert forall|d: int| #[trigger]
                now.dom().contains(d) && from <= d < max implies {
                &&& collector.takes(d)
                &&& accept_docs matches Some(bits) ==> d < bits.bit_seq().len()
            } by {
                assert(all.dom().contains(d));
                assert(collector.takes(d) == old(collector).takes(d));
            }
        }
        let scored = score_part(over, scorer, collector, accept_docs, from, max, interval);
        proof {
            if scored is Err {
                let part_to = part_end(from, max, interval) as int;
                let floor = collector.floor();
                let entries = choose|entries: Seq<(int, i32)>| #[trigger]
                    is_report_so_far(now, accept_docs, from as int, part_to, floor, entries)
                        && collector.collected() == before + entries;
                let end = choose|end: int|
                    from <= end && (end <= part_to || end == from) && #[trigger] is_report(
                        now,
                        accept_docs,
                        from as int,
                        end,
                        floor,
                        entries,
                    );
                let second = choose|second: Map<int, i32>| #[trigger]
                    reports(now, accept_docs, from as int, end, floor, second) && entries
                        == entries_in(second, from as int, end);
                reports_of_parts(
                    all,
                    now,
                    accept_docs,
                    min as int,
                    from as int,
                    end,
                    floor0,
                    floor,
                    reported,
                    second,
                );
                entries_of_parts(reported, second, min as int, from as int, from as int, end);
                let both = entries_in(reported.union_prefer_right(second), min as int, end);
                assert(is_report(all, accept_docs, min as int, end, floor, both));
                assert(is_report_so_far(all, accept_docs, min as int, max as int, floor, both));
                assert(collector.collected() =~= old(collector).collected() + both);
            }
        }
        let part = scored?;
        let next: i32 = match part {
            Some(next) => next,
            None => {
                proof {
                    let entries = entries_in(reported, min as int, from as int);
                    let floor = collector.floor();
                    assert(is_report(all, accept_docs, min as int, from as int, floor, entries));
                    assert(is_partial_report(
                        all,
                        accept_docs,
                        min as int,
                        max as int,
                        floor,
                        entries,
                    ));
                }
                return Ok(false);
            },
        };
        let ghost to = part_end(from, max, interval);
        if interval < 0x4000_0000 {
            interval = interval + interval / 2;
        }
        let end: i32 = if next < max {
            next
        } else {
            max
        };
        proof {
            let second = choose|second: Map<int, i32>| #[trigger]
                reports(
                    now,
                    accept_docs,
                    from as int,
                    to as int,
                    collector.floor(),
                    second,
                ) && collector.collected() == before + entries_in(second, from as int, to as int);
            lemma_reports_join(
                all,
                now,
                scorer.remaining(),
                accept_docs,
                min as int,
                from as int,
                to as int,
                next as int,
                end as int,
                floor0,
                collector.floor(),
                reported,
                second,
            );
            reported = reported.union_prefer_right(second);
            assert(collector.collected() =~= old(collector).collected() + entries_in(
                reported,
                min as int,
                end as int,
            ));
        }
        from = end;
    }
    assert(is_report(
        all,
        accept_docs,
        min as int,
        max as int,
        collector.floor(),
        entries_in(reported, min as int, max as int),
    ));
    Ok(true)
}

} // verus!
