//! Collection of the documents that all of several scorers match, in windows
//! of documents.

use vstd::prelude::*;
use vstd::string::*;

use crate::error::LuceneError;
use crate::search::bulk_scorer::{
    carried, entries_in, is_report, is_report_so_far, reports, BulkScorer, ScoreCollector,
};
use crate::search::collector::{
    all_scored, docs_between, docs_in, docs_in_are_exact, docs_in_next, docs_in_none, docs_in_same,
    docs_in_split, shifted_positions, with_score, with_score_added, CollectionError, DocCollector,
    LeafCollector,
};
use crate::search::doc_id_set_iterator::{first_from_in_range, is_first_from, NO_MORE_DOCS};
use crate::search::scorer::Scorer;
use crate::util::bits::Bits;
use crate::util::fixed_bit_set::FixedBitSet;
use crate::util::math::unsigned_min;
use crate::util::sort::{is_stable_order, reordered, stable_order};

verus! {

/// The greatest number of documents of a window.
pub const WINDOW_SIZE: i32 = 4096;

/// Bit sets are used as long as more than one in this many documents matches.
pub const DENSITY_THRESHOLD_INVERSE: i32 = 32;

/// The documents with a set bit; all documents where there are no bits.
pub open spec fn accepts<B: Bits>(accept_docs: Option<&B>, d: int) -> bool {
    accept_docs matches Some(bits) ==> 0 <= d < bits.bit_seq().len() && bits.bit_seq()[d]
}

/// The accepted documents that all scorers match.
pub open spec fn conjunction<S: Scorer, B: Bits>(ms: Seq<S>, accept_docs: Option<&B>) -> Set<int> {
    Set::new(
        |d: int|
            {
                &&& accepts(accept_docs, d)
                &&& forall|i: int| 0 <= i < ms.len() ==> (#[trigger] ms[i]).view().hits.contains(d)
            },
    )
}

/// The accepted documents that the scorers at the given positions match.
spec fn clause_conjunction<S: Scorer, B: Bits>(
    ms: Seq<S>,
    clauses: Seq<usize>,
    accept_docs: Option<&B>,
) -> Set<int> {
    Set::new(
        |d: int|
            {
                &&& accepts(accept_docs, d)
                &&& forall|i: int|
                    0 <= i < clauses.len() ==> ms[#[trigger] clauses[i] as int].view().hits.contains(d)
            },
    )
}

/// The documents of `set` were collected from `from` on, up to some document of `[from, to]`.
pub open spec fn ended_early<C: LeafCollector>(
    before: C,
    after: C,
    set: Set<int>,
    from: int,
    to: int,
) -> bool {
    exists|end: int|
        from <= end <= to && after.collected() == before.collected() + #[trigger] docs_in(
            set,
            from,
            end,
        )
}

/// The scorers are intact.
spec fn intact<S: Scorer>(ms: Seq<S>) -> bool {
    forall|i: int| 0 <= i < ms.len() ==> (#[trigger] ms[i]).inv() && ms[i].view().valid()
}

/// No scorer was asked to confirm a document between the two states.
spec fn same_records<S: Scorer>(a: Seq<S>, b: Seq<S>) -> bool {
    &&& a.len() == b.len()
    &&& forall|i: int| 0 <= i < a.len() ==> (#[trigger] b[i]).confirmed() == a[i].confirmed()
}

/// The scorers at the positions from `from` to `to` match `doc`.
spec fn clauses_match<S: Scorer>(
    ms: Seq<S>,
    clauses: Seq<usize>,
    from: int,
    to: int,
    doc: int,
) -> bool {
    forall|k: int| from <= k < to ==> ms[#[trigger] clauses[k] as int].view().hits.contains(doc)
}

/// Whether the scorer at `i` is at one of the positions from `from` on.
spec fn is_clause(clauses: Seq<usize>, from: int, i: int) -> bool {
    exists|k: int| from <= k < clauses.len() && #[trigger] clauses[k] == i
}

/// Whether `d` is an accepted document of all the approximations.
spec fn approximated<S: Scorer, B: Bits>(
    ms: Seq<S>,
    approximations: Seq<usize>,
    accept_docs: Option<&B>,
    d: int,
) -> bool {
    &&& accepts(accept_docs, d)
    &&& forall|i: int|
        0 <= i < approximations.len()
            ==> ms[#[trigger] approximations[i] as int].view().ids.docs.contains(d)
}

/// The accepted documents of all the approximations that the scorers at the first
/// `k` positions of `two_phases` match.
spec fn survivors<S: Scorer, B: Bits>(
    ms: Seq<S>,
    approximations: Seq<usize>,
    two_phases: Seq<usize>,
    accept_docs: Option<&B>,
    k: int,
) -> Set<int> {
    Set::new(
        |d: int|
            approximated(ms, approximations, accept_docs, d) && clauses_match(
                ms,
                two_phases,
                0,
                k,
                d,
            ),
    )
}

/// The documents of `[from, to)` on which each of the `two_phases` was asked are
/// those that survived all the approximations and the confirmations before it; no
/// other scorer was asked.
spec fn only_survivors_confirmed<S: Scorer, B: Bits>(
    before: Seq<S>,
    after: Seq<S>,
    approximations: Seq<usize>,
    two_phases: Seq<usize>,
    accept_docs: Option<&B>,
    from: int,
    to: int,
) -> bool {
    &&& before.len() == after.len()
    &&& forall|k: int|
        0 <= k < two_phases.len() ==> after[#[trigger] two_phases[k] as int].confirmed()
            == before[two_phases[k] as int].confirmed() + docs_in(
            survivors(before, approximations, two_phases, accept_docs, k),
            from,
            to,
        )
    &&& forall|i: int|
        0 <= i < before.len() && !two_phases.contains(i as usize) ==> (
        #[trigger] after[i]).confirmed() == before[i].confirmed()
}

/// Nothing survives in `[from, to)`.
proof fn lemma_nothing_confirmed<S: Scorer, B: Bits>(
    before: Seq<S>,
    after: Seq<S>,
    approximations: Seq<usize>,
    two_phases: Seq<usize>,
    accept_docs: Option<&B>,
    from: int,
    to: int,
)
    requires
        are_clauses(two_phases, before.len()),
        same_records(before, after),
        forall|d: int|
            from <= d < to ==> !#[trigger] approximated(before, approximations, accept_docs, d),
    ensures
        only_survivors_confirmed(
            before,
            after,
            approximations,
            two_phases,
            accept_docs,
            from,
            to,
        ),
{
    assert forall|k: int| 0 <= k < two_phases.len() implies after[
    #[trigger] two_phases[k] as int].confirmed() == before[two_phases[k] as int].confirmed()
        + docs_in(survivors(before, approximations, two_phases, accept_docs, k), from, to) by {
        let set = survivors(before, approximations, two_phases, accept_docs, k);
        assert forall|d: int| from <= d < to implies !#[trigger] set.contains(d) by {
            assert(!approximated(before, approximations, accept_docs, d));
        }
        docs_in_none(set, from, to);
        let p = two_phases[k] as int;
        assert(after[p].confirmed() == before[p].confirmed());
        assert(before[p].confirmed() + docs_in(set, from, to) =~= before[p].confirmed());
    }
}

/// The candidate `was` is left for `doc`, with nothing that survives in between.
proof fn lemma_confirmed_step<S: Scorer, B: Bits>(
    ms0: Seq<S>,
    before: Seq<S>,
    after: Seq<S>,
    approximations: Seq<usize>,
    two_phases: Seq<usize>,
    accept_docs: Option<&B>,
    min: int,
    was: int,
    doc: int,
    max: int,
)
    requires
        are_clauses(two_phases, ms0.len()),
        only_survivors_confirmed(
            ms0,
            before,
            approximations,
            two_phases,
            accept_docs,
            min,
            was,
        ),
        min <= was < doc,
        was < max,
        before.len() == after.len(),
        forall|d: int|
            was < d < doc ==> !#[trigger] approximated(ms0, approximations, accept_docs, d),
        forall|k: int|
            0 <= k < two_phases.len() ==> after[#[trigger] two_phases[k] as int].confirmed()
                == if survivors(ms0, approximations, two_phases, accept_docs, k).contains(was) {
                before[two_phases[k] as int].confirmed().push(was)
            } else {
                before[two_phases[k] as int].confirmed()
            },
        forall|i: int|
            0 <= i < ms0.len() && !two_phases.contains(i as usize) ==> (
            #[trigger] after[i]).confirmed() == before[i].confirmed(),
    ensures
        only_survivors_confirmed(
            ms0,
            after,
            approximations,
            two_phases,
            accept_docs,
            min,
            if doc < max {
                doc
            } else {
                max
            },
        ),
{
    let to = if doc < max {
        doc
    } else {
        max
    };
    assert forall|k: int| 0 <= k < two_phases.len() implies after[
    #[trigger] two_phases[k] as int].confirmed() == ms0[two_phases[k] as int].confirmed()
        + docs_in(survivors(ms0, approximations, two_phases, accept_docs, k), min, to) by {
        let set = survivors(ms0, approximations, two_phases, accept_docs, k);
        assert forall|d: int| was < d < doc && d < max implies !#[trigger] set.contains(d) by {
            assert(!approximated(ms0, approximations, accept_docs, d));
        }
        lemma_cut(set, min, was, doc, max);
        let p = two_phases[k] as int;
        assert(before[p].confirmed() == ms0[p].confirmed() + docs_in(set, min, was));
        assert(after[p].confirmed() =~= ms0[p].confirmed() + docs_in(set, min, to));
    }
    assert forall|i: int| 0 <= i < ms0.len() && !two_phases.contains(i as usize) implies (
    #[trigger] after[i]).confirmed() == ms0[i].confirmed() by {
        assert(before[i].confirmed() == ms0[i].confirmed());
    }
}

/// The scorers match the same documents.
spec fn same_members<S: Scorer>(a: Seq<S>, b: Seq<S>) -> bool {
    &&& a.len() == b.len()
    &&& forall|i: int| 0 <= i < a.len() ==> {
        &&& (#[trigger] b[i]).view() == a[i].view().at(b[i].view().ids.doc)
        &&& b[i].infallible() == a[i].infallible()
    }
}

/// No scorer has passed a document at or after `from`.
pub open spec fn positioned<S: Scorer>(ms: Seq<S>, from: int) -> bool {
    forall|i: int, d: int|
        0 <= i < ms.len() && #[trigger] ms[i].view().ids.docs.contains(d) && d >= from ==> d
            >= ms[i].view().ids.doc
}

/// The scorer `m` has not passed a document at or after `from`.
spec fn not_passed<S: Scorer>(m: S, from: int) -> bool {
    forall|d: int| #[trigger] m.view().ids.docs.contains(d) && d >= from ==> d >= m.view().ids.doc
}

/// Whether no scorer fails.
pub open spec fn all_infallible<S: Scorer>(ms: Seq<S>) -> bool {
    forall|i: int| 0 <= i < ms.len() ==> #[trigger] ms[i].infallible()
}

proof fn lemma_same_members_trans<S: Scorer>(a: Seq<S>, b: Seq<S>, c: Seq<S>)
    requires
        same_members(a, b),
        same_members(b, c),
    ensures
        same_members(a, c),
{
    assert forall|i: int| 0 <= i < a.len() implies {
        &&& (#[trigger] c[i]).view() == a[i].view().at(c[i].view().ids.doc)
        &&& c[i].infallible() == a[i].infallible()
    } by {
        assert(b[i].view() == a[i].view().at(b[i].view().ids.doc));
    }
}

proof fn lemma_same_conjunction<S: Scorer, B: Bits>(
    a: Seq<S>,
    b: Seq<S>,
    clauses: Seq<usize>,
    accept_docs: Option<&B>,
)
    requires
        same_members(a, b),
        forall|i: int| 0 <= i < clauses.len() ==> #[trigger] clauses[i] < a.len(),
    ensures
        clause_conjunction(a, clauses, accept_docs) == clause_conjunction(b, clauses, accept_docs),
        conjunction(a, accept_docs) == conjunction(b, accept_docs),
        all_infallible(a) == all_infallible(b),
{
    assert forall|d: int|
        clause_conjunction(a, clauses, accept_docs).contains(d) == clause_conjunction(
            b,
            clauses,
            accept_docs,
        ).contains(d) by {
        assert forall|i: int| 0 <= i < clauses.len() implies a[
        #[trigger] clauses[i] as int].view().hits == b[clauses[i] as int].view().hits by {
        }
    }
    assert(clause_conjunction(a, clauses, accept_docs) =~= clause_conjunction(
        b,
        clauses,
        accept_docs,
    ));
    assert forall|d: int|
        conjunction(a, accept_docs).contains(d) == conjunction(b, accept_docs).contains(d) by {
        if conjunction(a, accept_docs).contains(d) {
            assert forall|i: int| 0 <= i < b.len() implies (#[trigger] b[i]).view().hits.contains(
                d,
            ) by {
                assert(a[i].view().hits.contains(d));
            }
        }
        if conjunction(b, accept_docs).contains(d) {
            assert forall|i: int| 0 <= i < a.len() implies (#[trigger] a[i]).view().hits.contains(
                d,
            ) by {
                assert(b[i].view().hits.contains(d));
            }
        }
    }
    assert(conjunction(a, accept_docs) =~= conjunction(b, accept_docs));
    if all_infallible(a) {
        assert forall|i: int| 0 <= i < b.len() implies #[trigger] b[i].infallible() by {
            assert(a[i].infallible());
        }
    }
    if all_infallible(b) {
        assert forall|i: int| 0 <= i < a.len() implies #[trigger] a[i].infallible() by {
            assert(b[i].infallible());
        }
    }
}

/// Moves the scorer at `p` to its first document at or after `target`, unless
/// it is there already.
fn advance_to<S: Scorer>(members: &mut Vec<S>, p: usize, target: i32) -> (r: Result<
    i32,
    LuceneError,
>)
    requires
        intact(old(members)@),
        p < old(members)@.len(),
        target >= 0,
    ensures
        old(members)@[p as int].infallible() ==> r is Ok,
        same_len(old(members)@, final(members)@),
        forall|i: int|
            0 <= i < old(members)@.len() && i != p ==> #[trigger] final(members)@[i] == old(
                members,
            )@[i],
        final(members)@[p as int].infallible() == old(members)@[p as int].infallible(),
        r matches Ok(d) ==> {
            &&& intact(final(members)@)
            &&& same_members(old(members)@, final(members)@)
            &&& same_records(old(members)@, final(members)@)
            &&& final(members)@[p as int].view().ids.doc == d
            &&& d >= target
            &&& old(members)@[p as int].view().ids.doc >= target ==> d == old(
                members,
            )@[p as int].view().ids.doc
            &&& old(members)@[p as int].view().ids.doc < target ==> is_first_from(
                old(members)@[p as int].view().ids.docs,
                target as int,
                d as int,
            )
            &&& d == NO_MORE_DOCS || final(members)@[p as int].view().ids.docs.contains(d as int)
        },
{
    let doc: i32 = members[p].doc_id();
    if doc < target {
        let d: i32 = members[p].advance_approximation(target)?;
        proof {
            first_from_in_range(members@[p as int].view().ids, target as int, d as int);
        }
        Ok(d)
    } else {
        Ok(doc)
    }
}

spec fn same_len<S>(a: Seq<S>, b: Seq<S>) -> bool {
    a.len() == b.len()
}

/// The positions are different, and positions of scorers.
spec fn are_clauses(clauses: Seq<usize>, n: nat) -> bool {
    &&& clauses.no_duplicates()
    &&& forall|i: int| 0 <= i < clauses.len() ==> #[trigger] clauses[i] < n
}

/// The scorers at the positions from `from` on have not passed a document at or
/// after `doc`.
spec fn clauses_positioned<S: Scorer>(
    ms: Seq<S>,
    clauses: Seq<usize>,
    from: int,
    doc: int,
) -> bool {
    forall|k: int|
        from <= k < clauses.len() ==> not_passed(ms[#[trigger] clauses[k] as int], doc)
}

/// The scorers at the positions from `from` to `to` are on `doc`.
spec fn clauses_on<S: Scorer>(
    ms: Seq<S>,
    clauses: Seq<usize>,
    from: int,
    to: int,
    doc: int,
) -> bool {
    forall|k: int|
        from <= k < to ==> ms[#[trigger] clauses[k] as int].view().ids.doc == doc && ms[
        clauses[k] as int].view().ids.docs.contains(doc)
}

/// Some scorer at the positions from `from` on has no document in `[doc, next)`.
spec fn gap_until<S: Scorer>(
    ms: Seq<S>,
    clauses: Seq<usize>,
    from: int,
    doc: int,
    next: int,
) -> bool {
    exists|k: int| from <= k < clauses.len() && #[trigger] gap_at(ms, clauses, k, doc, next)
}

/// The scorer at the position `k` has no document in `[doc, next)`.
spec fn gap_at<S: Scorer>(ms: Seq<S>, clauses: Seq<usize>, k: int, doc: int, next: int) -> bool {
    forall|d: int| #[trigger]
        ms[clauses[k] as int].view().ids.docs.contains(d) && d >= doc ==> d >= next
}

/// Moves the scorers at the positions from `from` on to `doc`, until one of them
/// has no such document; then its next document is returned.
fn align<S: Scorer>(members: &mut Vec<S>, clauses: &[usize], from: usize, doc: i32) -> (r: Result<
    Option<i32>,
    LuceneError,
>)
    requires
        intact(old(members)@),
        are_clauses(clauses@, old(members)@.len()),
        from <= clauses@.len(),
        0 <= doc < NO_MORE_DOCS,
        clauses_positioned(old(members)@, clauses@, from as int, doc as int),
    ensures
        all_infallible(old(members)@) ==> r is Ok,
        r matches Ok(next) ==> {
            &&& intact(final(members)@)
            &&& same_members(old(members)@, final(members)@)
            &&& same_records(old(members)@, final(members)@)
            &&& clauses_positioned(final(members)@, clauses@, from as int, doc as int)
            &&& forall|x: int|
                doc <= x && positioned(old(members)@, x) ==> #[trigger] positioned(
                    final(members)@,
                    x,
                )
            &&& forall|k: int|
                0 <= k < from ==> final(members)@[#[trigger] clauses@[k] as int] == old(
                    members,
                )@[clauses@[k] as int]
            &&& next is None ==> clauses_on(
                final(members)@,
                clauses@,
                from as int,
                clauses@.len() as int,
                doc as int,
            )
            &&& next matches Some(d) ==> d > doc && gap_until(
                final(members)@,
                clauses@,
                from as int,
                doc as int,
                d as int,
            )
        },
{
    let ghost ms0 = members@;
    let mut k: usize = from;
    while k < clauses.len()
        invariant
            ms0 == old(members)@,
            intact(members@),
            same_members(ms0, members@),
            same_records(ms0, members@),
            are_clauses(clauses@, members@.len()),
            from <= k <= clauses@.len(),
            0 <= doc < NO_MORE_DOCS,
            clauses_positioned(members@, clauses@, from as int, doc as int),
            clauses_on(members@, clauses@, from as int, k as int, doc as int),
            forall|x: int|
                doc <= x && positioned(ms0, x) ==> #[trigger] positioned(members@, x),
            forall|j: int|
                0 <= j < from ==> members@[#[trigger] clauses@[j] as int] == ms0[
                clauses@[j] as int],
        decreases clauses.len() - k,
    {
        let p: usize = clauses[k];
        let ghost before = members@;
        proof {
            lemma_same_conjunction::<S, FixedBitSet>(ms0, before, Seq::empty(), None);
        }
        let d: i32 = advance_to(members, p, doc)?;
        proof {
            lemma_same_members_trans(ms0, before, members@);
            let m = members@[p as int];
            assert(not_passed(before[clauses@[k as int] as int], doc as int));
            assert(not_passed(m, doc as int));
            assert forall|j: int| from <= j < clauses@.len() implies not_passed(
                members@[#[trigger] clauses@[j] as int],
                doc as int,
            ) by {
                if j != k {
                    assert(clauses@[j] != clauses@[k as int]);
                    assert(not_passed(before[clauses@[j] as int], doc as int));
                }
            }
            assert forall|x: int| doc <= x && positioned(ms0, x) implies #[trigger] positioned(
                members@,
                x,
            ) by {
                assert(positioned(before, x));
                assert forall|i: int, y: int|
                    0 <= i < members@.len() && #[trigger] members@[i].view().ids.docs.contains(y)
                        && y >= x implies y >= members@[i].view().ids.doc by {
                    if i != p {
                        assert(before[i].view().ids.docs.contains(y));
                    }
                }
            }
            assert forall|j: int| from <= j < k implies members@[
            #[trigger] clauses@[j] as int].view().ids.doc == doc && members@[
            clauses@[j] as int].view().ids.docs.contains(doc as int) by {
                assert(clauses@[j] != clauses@[k as int]);
                assert(before[clauses@[j] as int].view().ids.doc == doc);
            }
            assert forall|j: int| 0 <= j < from implies members@[#[trigger] clauses@[j] as int]
                == ms0[clauses@[j] as int] by {
                assert(clauses@[j] != clauses@[k as int]);
            }
        }
        if d != doc {
            proof {
                assert(gap_at(members@, clauses@, k as int, doc as int, d as int));
            }
            return Ok(Some(d));
        }
        k += 1;
    }
    Ok(None)
}

/// Confirms the current document of the scorers at the positions from `from` on
/// that have a two-phase view, until one of them does not match it.
fn confirm_all<S: Scorer>(members: &mut Vec<S>, clauses: &[usize], from: usize, doc: i32) -> (r:
    Result<bool, LuceneError>)
    requires
        intact(old(members)@),
        are_clauses(clauses@, old(members)@.len()),
        from <= clauses@.len(),
        clauses_on(old(members)@, clauses@, from as int, clauses@.len() as int, doc as int),
    ensures
        all_infallible(old(members)@) ==> r is Ok,
        r matches Ok(b) ==> {
            &&& intact(final(members)@)
            &&& same_members(old(members)@, final(members)@)
            &&& forall|i: int|
                0 <= i < old(members)@.len() ==> (#[trigger] final(members)@[i]).view() == old(
                    members,
                )@[i].view()
            &&& b <==> forall|k: int|
                from <= k < clauses@.len() ==> old(members)@[
                #[trigger] clauses@[k] as int].view().hits.contains(doc as int)
            &&& forall|k: int|
                from <= k < clauses@.len() ==> final(members)@[
                #[trigger] clauses@[k] as int].confirmed() == if old(members)@[
                clauses@[k] as int].view().two_phase && clauses_match(
                    old(members)@,
                    clauses@,
                    from as int,
                    k,
                    doc as int,
                ) {
                    old(members)@[clauses@[k] as int].confirmed().push(doc as int)
                } else {
                    old(members)@[clauses@[k] as int].confirmed()
                }
            &&& forall|i: int|
                0 <= i < old(members)@.len() && !is_clause(clauses@, from as int, i) ==> (
                #[trigger] final(members)@[i]).confirmed() == old(members)@[i].confirmed()
        },
{
    let ghost ms0 = members@;
    let mut k: usize = from;
    while k < clauses.len()
        invariant
            ms0 == old(members)@,
            intact(members@),
            are_clauses(clauses@, members@.len()),
            members@.len() == ms0.len(),
            from <= k <= clauses@.len(),
            same_members(ms0, members@),
            forall|i: int| 0 <= i < ms0.len() ==> (#[trigger] members@[i]).view() == ms0[i].view(),
            clauses_on(ms0, clauses@, from as int, clauses@.len() as int, doc as int),
            forall|j: int|
                from <= j < k ==> ms0[#[trigger] clauses@[j] as int].view().hits.contains(
                    doc as int,
                ),
            forall|j: int|
                from <= j < k ==> members@[#[trigger] clauses@[j] as int].confirmed() == if ms0[
                clauses@[j] as int].view().two_phase {
                    ms0[clauses@[j] as int].confirmed().push(doc as int)
                } else {
                    ms0[clauses@[j] as int].confirmed()
                },
            forall|j: int|
                k <= j < clauses@.len() ==> members@[#[trigger] clauses@[j] as int].confirmed()
                    == ms0[clauses@[j] as int].confirmed(),
            forall|i: int|
                0 <= i < ms0.len() && !is_clause(clauses@, from as int, i) ==> (
                #[trigger] members@[i]).confirmed() == ms0[i].confirmed(),
        decreases clauses.len() - k,
    {
        let p: usize = clauses[k];
        let ghost before = members@;
        proof {
            lemma_same_conjunction::<S, FixedBitSet>(ms0, before, Seq::empty(), None);
            assert(ms0[clauses@[k as int] as int].view().ids.docs.contains(doc as int));
            assert(before[p as int].view() == ms0[p as int].view());
        }
        if members[p].has_two_phase() {
            let b: bool = members[p].matches()?;
            proof {
                assert forall|i: int| 0 <= i < ms0.len() implies (#[trigger] members@[i]).view()
                    == ms0[i].view() by {
                    assert(before[i].view() == ms0[i].view());
                }
                assert(is_clause(clauses@, from as int, p as int)) by {
                    assert(clauses@[k as int] == p);
                }
                assert forall|j: int| 0 <= j < clauses@.len() && j != k implies members@[
                #[trigger] clauses@[j] as int].confirmed() == before[
                clauses@[j] as int].confirmed() by {
                    assert(clauses@[j] != clauses@[k as int]);
                }
            }
            if !b {
                proof {
                    assert forall|j: int| k < j < clauses@.len() implies !#[trigger] clauses_match(
                        ms0,
                        clauses@,
                        from as int,
                        j,
                        doc as int,
                    ) by {
                        assert(!ms0[clauses@[k as int] as int].view().hits.contains(doc as int));
                    }
                }
                return Ok(false);
            }
        } else {
            assert(ms0[p as int].view().valid());
        }
        k += 1;
    }
    Ok(true)
}

fn failed<T>(r: Result<T, LuceneError>) -> (out: Result<T, CollectionError>)
    ensures
        r matches Ok(v) ==> out == Ok::<T, CollectionError>(v),
        r matches Err(e) ==> out == Err::<T, CollectionError>(CollectionError::Failed(e)),
{
    match r {
        Ok(v) => Ok(v),
        Err(e) => Err(CollectionError::Failed(e)),
    }
}

fn accepts_doc<B: Bits>(accept_docs: Option<&B>, doc: i32) -> (r: bool)
    requires
        doc >= 0,
    ensures
        r == accepts(accept_docs, doc as int),
{
    match accept_docs {
        Some(bits) => (doc as usize) < bits.length() && bits.get(doc as usize),
        None => true,
    }
}

/// Collects the accepted documents of `[min, max)` that the scorers at the given
/// positions match, moving from document to document.
///
/// A scorer is asked to confirm a document only when it is an accepted document of
/// all the approximations and the confirmations before it in `two_phases` match it.
#[verifier::rlimit(60)]
fn score_window_using_leap_frog<S: Scorer, B: Bits, C: LeafCollector>(
    collector: &mut C,
    score: i32,
    accept_docs: Option<&B>,
    members: &mut Vec<S>,
    approximations: &[usize],
    two_phases: &[usize],
    min: i32,
    max: i32,
) -> (r: Result<(), CollectionError>)
    requires
        intact(old(members)@),
        are_clauses(approximations@, old(members)@.len()),
        approximations@.len() > 0,
        are_clauses(two_phases@, old(members)@.len()),
        forall|p: usize| #[trigger]
            two_phases@.contains(p) <==> approximations@.contains(p)
                && old(members)@[p as int].view().two_phase,
        0 <= min < max,
        positioned(old(members)@, min as int),
    ensures
        all_infallible(old(members)@) && old(collector).infallible() ==> r is Ok,
        final(collector).infallible() == old(collector).infallible(),
        r is Ok ==> {
            &&& intact(final(members)@)
            &&& same_members(old(members)@, final(members)@)
            &&& positioned(final(members)@, max as int)
            &&& final(collector).collected() == old(collector).collected() + docs_in(
                clause_conjunction(old(members)@, approximations@, accept_docs),
                min as int,
                max as int,
            )
            &&& all_scored(*old(collector), *final(collector), score)
            &&& final(collector).ranges() == old(collector).ranges()
            &&& only_survivors_confirmed(
                old(members)@,
                final(members)@,
                approximations@,
                two_phases@,
                accept_docs,
                min as int,
                max as int,
            )
        },
        old(collector).infallible() ==> !(r matches Err(CollectionError::CollectionTerminated)),
        r is Err ==> ended_early(
            *old(collector),
            *final(collector),
            clause_conjunction(old(members)@, approximations@, accept_docs),
            min as int,
            max as int,
        ),
{
    let ghost ms0 = members@;
    let ghost set = clause_conjunction(ms0, approximations@, accept_docs);
    let ghost collected0 = collector.collected();
    let ghost scores0 = collector.scores();
    let lead: usize = approximations[0];
    proof {
        assert(are_clauses(approximations@, ms0.len()));
        assert(positioned(ms0, max as int));
        assert(collected0 + docs_in(set, min as int, min as int) =~= collected0);
        assert(ended_early(*old(collector), *collector, set, min as int, max as int));
    }
    let mut doc: i32 = failed(advance_to(members, lead, min))?;
    proof {
        lemma_advanced_positioned(ms0, members@, lead as int, min as int);
        lemma_gap(ms0, members@, approximations@, accept_docs, 0, min as int, doc as int);
        lemma_cut(set, min as int, min as int, doc as int, max as int);
        assert(collected0 + docs_in(set, min as int, min as int) =~= collected0);
        with_score_added(scores0, 0, 0, score);
        let to = if doc < max {
            doc as int
        } else {
            max as int
        };
        lemma_lead_leaves_none(
            ms0,
            members@,
            approximations@,
            accept_docs,
            0,
            min as int,
            doc as int,
        );
        lemma_nothing_confirmed(
            ms0,
            members@,
            approximations@,
            two_phases@,
            accept_docs,
            min as int,
            to,
        );
    }
    while doc < max
        invariant
            ms0 == old(members)@,
            intact(ms0),
            collected0 == old(collector).collected(),
            scores0 == old(collector).scores(),
            collector.scores() == with_score(
                scores0,
                collector.collected().len() - collected0.len(),
                score,
            ),
            set == clause_conjunction(ms0, approximations@, accept_docs),
            intact(members@),
            same_members(ms0, members@),
            are_clauses(approximations@, members@.len()),
            approximations@.len() > 0,
            are_clauses(two_phases@, members@.len()),
            forall|p: usize| #[trigger]
                two_phases@.contains(p) <==> approximations@.contains(p)
                    && ms0[p as int].view().two_phase,
            lead == approximations@[0],
            0 <= min <= doc,
            min < max,
            doc == members@[lead as int].view().ids.doc,
            doc == NO_MORE_DOCS || members@[lead as int].view().ids.docs.contains(doc as int),
            positioned(members@, max as int),
            doc < max ==> positioned(members@, doc as int),
            collector.infallible() == old(collector).infallible(),
            collector.ranges() == old(collector).ranges(),
            only_survivors_confirmed(
                ms0,
                members@,
                approximations@,
                two_phases@,
                accept_docs,
                min as int,
                if doc < max {
                    doc as int
                } else {
                    max as int
                },
            ),
            collector.collected() == collected0 + docs_in(
                set,
                min as int,
                if doc < max {
                    doc as int
                } else {
                    max as int
                },
            ),
        decreases NO_MORE_DOCS - doc,
    {
        let ghost before = members@;
        let ghost was = doc as int;
        proof {
            lemma_same_conjunction(ms0, before, approximations@, accept_docs);
            assert(ended_early(*old(collector), *collector, set, min as int, max as int));
        }
        if !accepts_doc(accept_docs, doc) {
            doc = failed(members[lead].next_approximation())?;
            proof {
                lemma_moved(ms0, before, members@, lead as int, was, was + 1, max as int);
                lemma_gap(ms0, members@, approximations@, accept_docs, 0, was + 1, doc as int);
                assert(!set.contains(was));
                lemma_cut(set, min as int, was, doc as int, max as int);
                lemma_lead_leaves_none(
                    ms0,
                    members@,
                    approximations@,
                    accept_docs,
                    0,
                    was + 1,
                    doc as int,
                );
                assert(!approximated(ms0, approximations@, accept_docs, was));
                lemma_confirmed_step(
                    ms0,
                    before,
                    members@,
                    approximations@,
                    two_phases@,
                    accept_docs,
                    min as int,
                    was,
                    doc as int,
                    max as int,
                );
            }
        } else {
            match failed(align(members, approximations, 1, doc))? {
                Some(next) => {
                    let ghost aligned = members@;
                    proof {
                        lemma_same_members_trans(ms0, before, aligned);
                        lemma_same_conjunction(ms0, aligned, approximations@, accept_docs);
                        lemma_gap_clause(
                            ms0,
                            aligned,
                            approximations@,
                            accept_docs,
                            1,
                            was,
                            next as int,
                        );
                        assert(aligned[approximations@[0] as int] == before[approximations@[0] as int]);
                    }
                    let target: i32 = if next < max {
                        next
                    } else {
                        max
                    };
                    doc = failed(members[lead].advance_approximation(target))?;
                    proof {
                        lemma_moved(ms0, aligned, members@, lead as int, was, target as int, max as int);
                        lemma_gap(ms0, members@, approximations@, accept_docs, 0, target as int, doc as int);
                        lemma_cut(set, min as int, was, doc as int, max as int);
                        let g = choose|g: int|
                            1 <= g < approximations@.len() && #[trigger] gap_at(
                                aligned,
                                approximations@,
                                g,
                                was,
                                next as int,
                            );
                        lemma_lead_leaves_none(
                            ms0,
                            aligned,
                            approximations@,
                            accept_docs,
                            g,
                            was,
                            next as int,
                        );
                        lemma_lead_leaves_none(
                            ms0,
                            members@,
                            approximations@,
                            accept_docs,
                            0,
                            target as int,
                            doc as int,
                        );
                        assert(!approximated(ms0, approximations@, accept_docs, was));
                        lemma_confirmed_step(
                            ms0,
                            before,
                            members@,
                            approximations@,
                            two_phases@,
                            accept_docs,
                            min as int,
                            was,
                            doc as int,
                            max as int,
                        );
                    }
                },
                None => {
                    let ghost aligned = members@;
                    proof {
                        lemma_same_members_trans(ms0, before, aligned);
                        lemma_same_conjunction(ms0, aligned, approximations@, accept_docs);
                        assert(aligned[approximations@[0] as int] == before[approximations@[0] as int]);
                        lemma_all_on(aligned, approximations@, two_phases@, was);
                    }
                    let matched: bool = failed(confirm_all(members, two_phases, 0, doc))?;
                    let ghost confirmed = members@;
                    proof {
                        assert forall|i: int|
                            0 <= i < aligned.len() && !two_phases@.contains(i as usize) implies (
                        #[trigger] confirmed[i]).confirmed() == aligned[i].confirmed() by {
                            if is_clause(two_phases@, 0, i) {
                                let k = choose|k: int|
                                    0 <= k < two_phases@.len() && #[trigger] two_phases@[k] == i;
                                assert(two_phases@[k] == i as usize);
                            }
                        }
                        lemma_same_members_trans(ms0, aligned, confirmed);
                        lemma_same_conjunction(ms0, confirmed, approximations@, accept_docs);
                        lemma_confirmed(ms0, aligned, approximations@, two_phases@, accept_docs, was, matched);
                        lemma_views_positioned(aligned, confirmed, was);
                        lemma_views_positioned(aligned, confirmed, max as int);
                    }
                    if matched {
                        let ghost n = collector.collected().len() - collected0.len();
                        proof {
                            docs_in_next(set, min as int, was, was + 1);
                            assert(collector.collected().push(was) =~= collected0 + docs_in(
                                set,
                                min as int,
                                was + 1,
                            ));
                        }
                        let collected = collector.collect(doc, score);
                        assert(ended_early(
                            *old(collector),
                            *collector,
                            set,
                            min as int,
                            max as int,
                        ));
                        collected?;
                        proof {
                            with_score_added(scores0, n, 0, score);
                        }
                    }
                    doc = failed(members[lead].next_approximation())?;
                    proof {
                        lemma_moved(ms0, confirmed, members@, lead as int, was, was + 1, max as int);
                        lemma_gap(ms0, members@, approximations@, accept_docs, 0, was + 1, doc as int);
                        lemma_cut(set, min as int, was, doc as int, max as int);
                        lemma_lead_leaves_none(
                            ms0,
                            members@,
                            approximations@,
                            accept_docs,
                            0,
                            was + 1,
                            doc as int,
                        );
                        lemma_confirmed_candidate(
                            ms0,
                            before,
                            aligned,
                            confirmed,
                            members@,
                            approximations@,
                            two_phases@,
                            accept_docs,
                            min as int,
                            was,
                            doc as int,
                            max as int,
                        );
                    }
                },
            }
        }
    }
    Ok(())
}

/// A gap of one approximation leaves no document of all of them.
proof fn lemma_lead_leaves_none<S: Scorer, B: Bits>(
    ms0: Seq<S>,
    ms: Seq<S>,
    approximations: Seq<usize>,
    accept_docs: Option<&B>,
    k: int,
    from: int,
    to: int,
)
    requires
        same_members(ms0, ms),
        are_clauses(approximations, ms0.len()),
        0 <= k < approximations.len(),
        forall|d: int| #[trigger]
            ms[approximations[k] as int].view().ids.docs.contains(d) && d >= from ==> d >= to,
    ensures
        forall|d: int|
            from <= d < to ==> !#[trigger] approximated(ms0, approximations, accept_docs, d),
{
    assert forall|d: int| from <= d < to implies !#[trigger] approximated(
        ms0,
        approximations,
        accept_docs,
        d,
    ) by {
        let p = approximations[k] as int;
        assert(ms[p].view() == ms0[p].view().at(ms[p].view().ids.doc));
        assert(!ms[p].view().ids.docs.contains(d));
        if approximated(ms0, approximations, accept_docs, d) {
            assert(ms0[approximations[k] as int].view().ids.docs.contains(d));
        }
    }
}

/// The candidate `was`, an accepted document of all the approximations, was
/// confirmed before it is left for `doc`.
proof fn lemma_confirmed_candidate<S: Scorer, B: Bits>(
    ms0: Seq<S>,
    before: Seq<S>,
    aligned: Seq<S>,
    confirmed: Seq<S>,
    after: Seq<S>,
    approximations: Seq<usize>,
    two_phases: Seq<usize>,
    accept_docs: Option<&B>,
    min: int,
    was: int,
    doc: int,
    max: int,
)
    requires
        are_clauses(approximations, ms0.len()),
        are_clauses(two_phases, ms0.len()),
        forall|p: usize| #[trigger]
            two_phases.contains(p) <==> approximations.contains(p)
                && ms0[p as int].view().two_phase,
        only_survivors_confirmed(
            ms0,
            before,
            approximations,
            two_phases,
            accept_docs,
            min,
            was,
        ),
        min <= was < doc,
        was < max,
        same_members(ms0, aligned),
        same_records(before, aligned),
        accepts(accept_docs, was),
        clauses_on(aligned, approximations, 0, approximations.len() as int, was),
        aligned.len() == confirmed.len(),
        forall|k: int|
            0 <= k < two_phases.len() ==> confirmed[#[trigger] two_phases[k] as int].confirmed()
                == if aligned[two_phases[k] as int].view().two_phase && clauses_match(
                aligned,
                two_phases,
                0,
                k,
                was,
            ) {
                aligned[two_phases[k] as int].confirmed().push(was)
            } else {
                aligned[two_phases[k] as int].confirmed()
            },
        forall|i: int|
            0 <= i < aligned.len() && !two_phases.contains(i as usize) ==> (
            #[trigger] confirmed[i]).confirmed() == aligned[i].confirmed(),
        same_records(confirmed, after),
        forall|d: int|
            was < d < doc ==> !#[trigger] approximated(ms0, approximations, accept_docs, d),
    ensures
        only_survivors_confirmed(
            ms0,
            after,
            approximations,
            two_phases,
            accept_docs,
            min,
            if doc < max {
                doc
            } else {
                max
            },
        ),
{
    assert(approximated(ms0, approximations, accept_docs, was)) by {
        assert forall|i: int| 0 <= i < approximations.len() implies ms0[
        #[trigger] approximations[i] as int].view().ids.docs.contains(was) by {
            let p = approximations[i] as int;
            assert(aligned[p].view() == ms0[p].view().at(aligned[p].view().ids.doc));
        }
    }
    assert forall|k: int| 0 <= k < two_phases.len() implies after[
    #[trigger] two_phases[k] as int].confirmed() == if survivors(
        ms0,
        approximations,
        two_phases,
        accept_docs,
        k,
    ).contains(was) {
        before[two_phases[k] as int].confirmed().push(was)
    } else {
        before[two_phases[k] as int].confirmed()
    } by {
        let p = two_phases[k] as int;
        assert(two_phases.contains(two_phases[k]));
        assert(aligned[p].view() == ms0[p].view().at(aligned[p].view().ids.doc));
        assert(aligned[p].confirmed() == before[p].confirmed());
        assert(after[p].confirmed() == confirmed[p].confirmed());
        assert forall|j: int| 0 <= j < k implies ms0[#[trigger] two_phases[j] as int].view().hits
            == aligned[two_phases[j] as int].view().hits by {
            let q = two_phases[j] as int;
            assert(aligned[q].view() == ms0[q].view().at(aligned[q].view().ids.doc));
        }
        assert(clauses_match(ms0, two_phases, 0, k, was) == clauses_match(
            aligned,
            two_phases,
            0,
            k,
            was,
        ));
    }
    assert forall|i: int| 0 <= i < ms0.len() && !two_phases.contains(i as usize) implies (
    #[trigger] after[i]).confirmed() == before[i].confirmed() by {
        assert(confirmed[i].confirmed() == aligned[i].confirmed());
        assert(aligned[i].confirmed() == before[i].confirmed());
    }
    lemma_confirmed_step(
        ms0,
        before,
        after,
        approximations,
        two_phases,
        accept_docs,
        min,
        was,
        doc,
        max,
    );
}

/// Advancing a scorer to its first document at or after `from` does not pass
/// that document.
proof fn lemma_advanced_positioned<S: Scorer>(a: Seq<S>, b: Seq<S>, p: int, from: int)
    requires
        intact(a),
        0 <= p < a.len(),
        same_members(a, b),
        forall|i: int| 0 <= i < a.len() && i != p ==> #[trigger] b[i] == a[i],
        a[p].view().ids.doc >= from ==> b[p].view().ids.doc == a[p].view().ids.doc,
        a[p].view().ids.doc < from ==> is_first_from(
            a[p].view().ids.docs,
            from,
            b[p].view().ids.doc,
        ),
    ensures
        forall|x: int| from <= x && positioned(a, x) ==> #[trigger] positioned(b, x),
        positioned(a, from) ==> not_passed(b[p], from),
{
    assert forall|x: int| from <= x && positioned(a, x) implies #[trigger] positioned(b, x) by {
        assert forall|i: int, d: int|
            0 <= i < b.len() && #[trigger] b[i].view().ids.docs.contains(d) && d >= x implies d
            >= b[i].view().ids.doc by {
            assert(a[i].view().ids.docs.contains(d));
        }
    }
}

proof fn lemma_views_positioned<S: Scorer>(a: Seq<S>, b: Seq<S>, x: int)
    requires
        a.len() == b.len(),
        forall|i: int| 0 <= i < a.len() ==> (#[trigger] b[i]).view() == a[i].view(),
        positioned(a, x),
    ensures
        positioned(b, x),
{
    assert forall|i: int, d: int|
        0 <= i < b.len() && #[trigger] b[i].view().ids.docs.contains(d) && d >= x implies d
        >= b[i].view().ids.doc by {
        assert(a[i].view().ids.docs.contains(d));
    }
}

/// A gap of one scorer is a gap of the conjunction.
proof fn lemma_gap<S: Scorer, B: Bits>(
    ms0: Seq<S>,
    ms: Seq<S>,
    clauses: Seq<usize>,
    accept_docs: Option<&B>,
    k: int,
    from: int,
    to: int,
)
    requires
        intact(ms0),
        same_members(ms0, ms),
        are_clauses(clauses, ms0.len()),
        0 <= k < clauses.len(),
        forall|d: int| #[trigger]
            ms[clauses[k] as int].view().ids.docs.contains(d) && d >= from ==> d >= to,
    ensures
        forall|d: int|
            from <= d < to ==> !#[trigger] clause_conjunction(ms0, clauses, accept_docs).contains(d),
{
    assert forall|d: int| from <= d < to implies !#[trigger] clause_conjunction(
        ms0,
        clauses,
        accept_docs,
    ).contains(d) by {
        let p = clauses[k] as int;
        assert(ms[p].view() == ms0[p].view().at(ms[p].view().ids.doc));
        assert(ms0[p].view().valid());
        if ms0[p].view().hits.contains(d) {
            assert(ms[p].view().ids.docs.contains(d));
        }
    }
}

proof fn lemma_gap_clause<S: Scorer, B: Bits>(
    ms0: Seq<S>,
    ms: Seq<S>,
    clauses: Seq<usize>,
    accept_docs: Option<&B>,
    from_k: int,
    from: int,
    to: int,
)
    requires
        intact(ms0),
        same_members(ms0, ms),
        are_clauses(clauses, ms0.len()),
        0 <= from_k,
        gap_until(ms, clauses, from_k, from, to),
    ensures
        forall|d: int|
            from <= d < to ==> !#[trigger] clause_conjunction(ms0, clauses, accept_docs).contains(d),
{
    let k = choose|k: int|
        from_k <= k < clauses.len() && #[trigger] gap_at(ms, clauses, k, from, to);
    lemma_gap(ms0, ms, clauses, accept_docs, k, from, to);
}

/// The documents up to the next candidate, within the window.
proof fn lemma_cut(set: Set<int>, min: int, was: int, doc: int, max: int)
    requires
        min <= was <= doc,
        was <= max,
        forall|d: int| was < d < doc && d < max ==> !#[trigger] set.contains(d),
    ensures
        docs_in(
            set,
            min,
            if doc < max {
                doc
            } else {
                max
            },
        ) == if was < doc && was < max && set.contains(was) {
            docs_in(set, min, was).push(was)
        } else {
            docs_in(set, min, was)
        },
{
    let cap = if doc < max {
        doc
    } else {
        max
    };
    if was < cap {
        docs_in_next(set, min, was, cap);
    }
}

/// The scorer at `p` has moved from `was` to its first document at or after
/// `target`.
proof fn lemma_moved<S: Scorer>(
    ms0: Seq<S>,
    before: Seq<S>,
    after: Seq<S>,
    p: int,
    was: int,
    target: int,
    max: int,
)
    requires
        same_members(ms0, before),
        intact(before),
        before.len() == after.len(),
        0 <= p < before.len(),
        forall|i: int| 0 <= i < before.len() && i != p ==> #[trigger] after[i] == before[i],
        after[p].inv(),
        after[p].view().valid(),
        after[p].view() == before[p].view().at(after[p].view().ids.doc),
        after[p].infallible() == before[p].infallible(),
        is_first_from(before[p].view().ids.docs, target, after[p].view().ids.doc),
        0 <= was < target <= max <= NO_MORE_DOCS,
        positioned(before, was),
        positioned(before, max),
    ensures
        same_members(ms0, after),
        intact(after),
        positioned(after, max),
        after[p].view().ids.doc >= target,
        after[p].view().ids.doc < max ==> positioned(after, after[p].view().ids.doc),
        after[p].view().ids.doc == NO_MORE_DOCS || after[p].view().ids.docs.contains(
            after[p].view().ids.doc,
        ),
{
    let doc = after[p].view().ids.doc;
    first_from_in_range(after[p].view().ids, target, doc);
    assert forall|i: int| 0 <= i < ms0.len() implies {
        &&& (#[trigger] after[i]).view() == ms0[i].view().at(after[i].view().ids.doc)
        &&& after[i].infallible() == ms0[i].infallible()
    } by {
        assert(before[i].view() == ms0[i].view().at(before[i].view().ids.doc));
    }
    assert forall|i: int, d: int|
        0 <= i < after.len() && #[trigger] after[i].view().ids.docs.contains(d) && d
            >= max implies d >= after[i].view().ids.doc by {
        assert(before[i].view().ids.docs.contains(d));
    }
    if doc < max {
        assert forall|i: int, d: int|
            0 <= i < after.len() && #[trigger] after[i].view().ids.docs.contains(d) && d
                >= doc implies d >= after[i].view().ids.doc by {
            assert(before[i].view().ids.docs.contains(d));
        }
    }
}

proof fn lemma_all_on<S: Scorer>(
    ms: Seq<S>,
    clauses: Seq<usize>,
    two_phases: Seq<usize>,
    doc: int,
)
    requires
        clauses.len() > 0,
        clauses_on(ms, clauses, 1, clauses.len() as int, doc),
        ms[clauses[0] as int].view().ids.doc == doc,
        ms[clauses[0] as int].view().ids.docs.contains(doc),
        forall|p: usize| #[trigger] two_phases.contains(p) ==> clauses.contains(p),
    ensures
        clauses_on(ms, clauses, 0, clauses.len() as int, doc),
        clauses_on(ms, two_phases, 0, two_phases.len() as int, doc),
{
    assert forall|k: int| 0 <= k < two_phases.len() implies ms[
    #[trigger] two_phases[k] as int].view().ids.doc == doc && ms[
    two_phases[k] as int].view().ids.docs.contains(doc) by {
        assert(two_phases.contains(two_phases[k]));
        let j = choose|j: int| 0 <= j < clauses.len() && clauses[j] == two_phases[k];
        assert(ms[clauses[j] as int].view().ids.doc == doc);
    }
}

/// On a document of all approximations, the confirmations decide.
proof fn lemma_confirmed<S: Scorer, B: Bits>(
    ms0: Seq<S>,
    ms: Seq<S>,
    clauses: Seq<usize>,
    two_phases: Seq<usize>,
    accept_docs: Option<&B>,
    doc: int,
    matched: bool,
)
    requires
        intact(ms),
        same_members(ms0, ms),
        are_clauses(clauses, ms.len()),
        clauses_on(ms, clauses, 0, clauses.len() as int, doc),
        accepts(accept_docs, doc),
        forall|p: usize| #[trigger]
            two_phases.contains(p) <==> clauses.contains(p) && ms0[p as int].view().two_phase,
        matched <==> forall|k: int|
            0 <= k < two_phases.len() ==> ms[#[trigger] two_phases[k] as int].view().hits.contains(
                doc,
            ),
    ensures
        matched == clause_conjunction(ms0, clauses, accept_docs).contains(doc),
{
    let set = clause_conjunction(ms0, clauses, accept_docs);
    if matched {
        assert forall|i: int| 0 <= i < clauses.len() implies ms0[
        #[trigger] clauses[i] as int].view().hits.contains(doc) by {
            let p = clauses[i];
            assert(ms[p as int].view() == ms0[p as int].view().at(ms[p as int].view().ids.doc));
            assert(clauses.contains(p));
            if ms0[p as int].view().two_phase {
                assert(two_phases.contains(p));
                let k = choose|k: int| 0 <= k < two_phases.len() && two_phases[k] == p;
                assert(ms[two_phases[k] as int].view().hits.contains(doc));
            } else {
                assert(ms[p as int].view().valid());
            }
        }
    }
    if set.contains(doc) {
        assert forall|k: int| 0 <= k < two_phases.len() implies ms[
        #[trigger] two_phases[k] as int].view().hits.contains(doc) by {
            let p = two_phases[k];
            assert(two_phases.contains(p));
            let j = choose|j: int| 0 <= j < clauses.len() && clauses[j] == p;
            assert(ms0[clauses[j] as int].view().hits.contains(doc));
            assert(ms[p as int].view() == ms0[p as int].view().at(ms[p as int].view().ids.doc));
        }
    }
}

/// The set bits stand for the documents of `set` in `[base, max)`.
spec fn window_holds(bits: Seq<bool>, set: Set<int>, base: int, max: int) -> bool {
    &&& bits.len() == WINDOW_SIZE
    &&& forall|x: int|
        0 <= x < WINDOW_SIZE ==> #[trigger] bits[x] == (x < max - base && set.contains(base + x))
}

/// No bit is set.
spec fn all_clear(bits: Seq<bool>) -> bool {
    &&& bits.len() == WINDOW_SIZE
    &&& forall|x: int| 0 <= x < WINDOW_SIZE ==> !#[trigger] bits[x]
}

/// `r` is the first set bit at or after `from`, or [`NO_MORE_DOCS`].
spec fn is_window_next(bits: Seq<bool>, from: int, r: i32) -> bool {
    if r == NO_MORE_DOCS {
        forall|j: int| from <= j < bits.len() ==> !#[trigger] bits[j]
    } else {
        &&& from <= r < bits.len()
        &&& bits[r as int]
        &&& forall|j: int| from <= j < r ==> !#[trigger] bits[j]
    }
}

/// Returns the first set bit at or after `i`, or [`NO_MORE_DOCS`].
fn advance_in_window(set: &FixedBitSet, i: i32) -> (r: i32)
    requires
        i >= 0,
        set@.len() == WINDOW_SIZE,
    ensures
        is_window_next(set@, i as int, r),
{
    if i >= WINDOW_SIZE {
        NO_MORE_DOCS
    } else {
        match set.next_set_bit(i as usize) {
            Some(x) => x as i32,
            None => NO_MORE_DOCS,
        }
    }
}

/// Clears the bits of the documents that are not accepted.
fn apply_mask<B: Bits>(accept_docs: &B, window: &mut FixedBitSet, base: i32, max: i32)
    requires
        0 <= base < max,
        old(window)@.len() == WINDOW_SIZE,
        forall|x: int|
            0 <= x < WINDOW_SIZE && #[trigger] old(window)@[x] ==> x < max - base,
    ensures
        final(window)@.len() == WINDOW_SIZE,
        forall|x: int|
            0 <= x < WINDOW_SIZE ==> #[trigger] final(window)@[x] == (old(window)@[x]
                && accepts(Some(accept_docs), base + x)),
{
    let mut x: i32 = 0;
    while x < WINDOW_SIZE
        invariant
            0 <= x <= WINDOW_SIZE,
            0 <= base < max,
            window@.len() == WINDOW_SIZE,
            old(window)@.len() == WINDOW_SIZE,
            forall|y: int|
                0 <= y < WINDOW_SIZE && #[trigger] old(window)@[y] ==> y < max - base,
            forall|y: int|
                0 <= y < WINDOW_SIZE ==> #[trigger] window@[y] == (old(window)@[y] && (y < x
                    ==> accepts(Some(accept_docs), base + y))),
        decreases WINDOW_SIZE - x,
    {
        if window.get(x as usize) {
            assert(old(window)@[x as int]);
            if !accepts_doc(Some(accept_docs), base + x) {
                window.clear(x as usize);
            }
        }
        x += 1;
    }
}

/// Keeps the bits of the documents that the scorer at `p` matches, confirming
/// them one by one. The scorer is asked only on documents of its approximation whose
/// bit is set.
fn confirm_survivors<S: Scorer>(
    members: &mut Vec<S>,
    p: usize,
    window: &mut FixedBitSet,
    base: i32,
    max: i32,
) -> (r: Result<(), LuceneError>)
    requires
        intact(old(members)@),
        p < old(members)@.len(),
        0 <= base < max,
        old(window)@.len() == WINDOW_SIZE,
        forall|x: int|
            0 <= x < WINDOW_SIZE && #[trigger] old(window)@[x] ==> x < max - base,
        not_passed(old(members)@[p as int], base as int),
        positioned(old(members)@, max as int),
    ensures
        old(members)@[p as int].infallible() ==> r is Ok,
        r is Ok ==> {
            &&& intact(final(members)@)
            &&& same_members(old(members)@, final(members)@)
            &&& positioned(final(members)@, max as int)
            &&& forall|i: int|
                0 <= i < old(members)@.len() && i != p ==> #[trigger] final(members)@[i] == old(
                    members,
                )@[i]
            &&& final(members)@[p as int].confirmed() == old(members)@[p as int].confirmed()
                + docs_in(
                shifted_positions(old(window)@, base as int).intersect(
                    old(members)@[p as int].view().ids.docs,
                ),
                base as int,
                max as int,
            )
            &&& final(window)@.len() == WINDOW_SIZE
            &&& forall|x: int|
                0 <= x < WINDOW_SIZE ==> #[trigger] final(window)@[x] == (old(window)@[x]
                    && old(members)@[p as int].view().hits.contains(base + x))
        },
{
    let ghost ms0 = members@;
    let ghost bits0 = window@;
    let ghost hits = ms0[p as int].view().hits;
    let ghost asked = shifted_positions(bits0, base as int).intersect(
        ms0[p as int].view().ids.docs,
    );
    let mut window_match: i32 = advance_in_window(window, 0);
    let ghost mut done: int = 0;
    proof {
        assert(ms0[p as int].confirmed() + docs_in(asked, base as int, base as int)
            =~= ms0[p as int].confirmed());
    }
    while window_match != NO_MORE_DOCS
        invariant
            ms0 == old(members)@,
            bits0 == old(window)@,
            hits == ms0[p as int].view().hits,
            asked == shifted_positions(bits0, base as int).intersect(
                ms0[p as int].view().ids.docs,
            ),
            members@[p as int].confirmed() == ms0[p as int].confirmed() + docs_in(
                asked,
                base as int,
                base + done,
            ),
            intact(ms0),
            intact(members@),
            same_members(ms0, members@),
            positioned(members@, max as int),
            p < members@.len(),
            0 <= base < max,
            window@.len() == WINDOW_SIZE,
            bits0.len() == WINDOW_SIZE,
            0 <= done,
            forall|i: int| 0 <= i < ms0.len() && i != p ==> #[trigger] members@[i] == ms0[i],
            forall|x: int| 0 <= x < WINDOW_SIZE && #[trigger] bits0[x] ==> x < max - base,
            forall|x: int|
                0 <= x < WINDOW_SIZE ==> #[trigger] window@[x] == (bits0[x] && (x < done
                    ==> hits.contains(base + x))),
            is_window_next(window@, done, window_match),
            not_passed(members@[p as int], base + done),
        decreases
                if window_match == NO_MORE_DOCS {
                    0
                } else {
                    WINDOW_SIZE - window_match
                },
    {
        let ghost before = members@;
        assert(window@[window_match as int]);
        assert(bits0[window_match as int]);
        let doc: i32 = base + window_match;
        let other_doc: i32 = advance_to(members, p, doc)?;
        proof {
            lemma_same_members_trans(ms0, before, members@);
            lemma_advanced_positioned(before, members@, p as int, doc as int);
            assert(not_passed(members@[p as int], doc as int));
            assert forall|d: int| base + done <= d < doc implies !#[trigger] asked.contains(d) by {
                assert(!window@[d - base]);
            }
            lemma_docs_in_to(asked, base as int, base + done, doc as int);
            docs_in_next(asked, base as int, doc as int, doc + 1);
            assert(asked.contains(doc as int) == (other_doc == doc));
            assert(members@[p as int].view().hits == hits);
            assert(members@[p as int].view().valid());
            assert(hits.contains(doc as int) ==> members@[p as int].view().ids.docs.contains(
                doc as int,
            ));
        }
        let keep: bool = if other_doc != doc {
            false
        } else {
            let ghost aligned = members@;
            let b: bool = members[p].matches()?;
            proof {
                lemma_views_positioned(aligned, members@, max as int);
                assert(same_members(ms0, members@));
            }
            b
        };
        assert(keep == hits.contains(doc as int));
        assert(members@[p as int].confirmed() =~= ms0[p as int].confirmed() + docs_in(
            asked,
            base as int,
            doc + 1,
        ));
        if !keep {
            window.clear(window_match as usize);
        }
        proof {
            done = window_match + 1;
        }
        window_match = advance_in_window(window, window_match + 1);
    }
    proof {
        assert forall|d: int| base + done <= d < max || max <= d < base + done implies !#[trigger] asked.contains(
            d) by {
            if 0 <= d - base < WINDOW_SIZE {
                assert(!window@[d - base] || d - base < done);
            }
        }
        lemma_docs_in_to(asked, base as int, base + done, max as int);
    }
    Ok(())
}

/// Clears all but the documents that the scorer at `p` matches, loading them at
/// once.
fn intersect_in_bulk<S: Scorer>(
    members: &mut Vec<S>,
    p: usize,
    window: &mut FixedBitSet,
    scratch: &mut FixedBitSet,
    base: i32,
    max: i32,
) -> (r: Result<(), LuceneError>)
    requires
        intact(old(members)@),
        p < old(members)@.len(),
        0 <= base < max <= base + WINDOW_SIZE,
        old(window)@.len() == WINDOW_SIZE,
        all_clear(old(scratch)@),
        forall|x: int|
            0 <= x < WINDOW_SIZE && #[trigger] old(window)@[x] ==> x < max - base,
        not_passed(old(members)@[p as int], base as int),
        old(members)@[p as int].view().ids.doc >= base,
        positioned(old(members)@, max as int),
    ensures
        old(members)@[p as int].infallible() ==> r is Ok,
        r is Ok ==> {
            &&& intact(final(members)@)
            &&& same_members(old(members)@, final(members)@)
            &&& positioned(final(members)@, max as int)
            &&& forall|i: int|
                0 <= i < old(members)@.len() && i != p ==> #[trigger] final(members)@[i] == old(
                    members,
                )@[i]
            &&& all_clear(final(scratch)@)
            &&& final(window)@.len() == WINDOW_SIZE
            &&& forall|x: int|
                0 <= x < WINDOW_SIZE ==> #[trigger] final(window)@[x] == (old(window)@[x]
                    && old(members)@[p as int].view().hits.contains(base + x))
        },
{
    load_window(members, p, scratch, base, max)?;
    window.and_in_place(scratch);
    scratch.clear_all();
    Ok(())
}

/// Loads the documents of `[base, max)` that the scorer at `p` matches into an
/// empty window.
fn load_window<S: Scorer>(
    members: &mut Vec<S>,
    p: usize,
    window: &mut FixedBitSet,
    base: i32,
    max: i32,
) -> (r: Result<(), LuceneError>)
    requires
        intact(old(members)@),
        p < old(members)@.len(),
        0 <= base < max <= base + WINDOW_SIZE,
        all_clear(old(window)@),
        not_passed(old(members)@[p as int], base as int),
        old(members)@[p as int].view().ids.doc >= base,
        positioned(old(members)@, max as int),
    ensures
        old(members)@[p as int].infallible() ==> r is Ok,
        r is Ok ==> {
            &&& intact(final(members)@)
            &&& same_members(old(members)@, final(members)@)
            &&& positioned(final(members)@, max as int)
            &&& forall|i: int|
                0 <= i < old(members)@.len() && i != p ==> #[trigger] final(members)@[i] == old(
                    members,
                )@[i]
            &&& window_holds(
                final(window)@,
                old(members)@[p as int].view().hits,
                base as int,
                max as int,
            )
        },
{
    let ghost ms0 = members@;
    let ghost v = ms0[p as int].view();
    assert(ms0[p as int].view().valid());
    members[p].load_hits(max, window, base)?;
    proof {
        first_from_in_range(
            members@[p as int].view().ids,
            if max >= v.ids.read_from() {
                max as int
            } else {
                v.ids.read_from()
            },
            members@[p as int].view().ids.doc,
        );
        assert forall|i: int, d: int|
            0 <= i < members@.len() && #[trigger] members@[i].view().ids.docs.contains(d) && d
                >= max implies d >= members@[i].view().ids.doc by {
            assert(ms0[i].view().ids.docs.contains(d));
        }
        assert forall|x: int| 0 <= x < WINDOW_SIZE implies #[trigger] window@[x] == (x < max - base
            && v.hits.contains(base + x)) by {
            if v.hits.contains(base + x) {
                assert(v.ids.docs.contains(base + x));
            }
        }
    }
    Ok(())
}

/// The documents with a set bit that the scorers at the positions from `from` on
/// match.
spec fn surviving<S: Scorer>(
    bits: Seq<bool>,
    ms: Seq<S>,
    clauses: Seq<usize>,
    from: int,
    base: int,
) -> Set<int> {
    Set::new(
        |d: int|
            {
                &&& 0 <= d - base < bits.len()
                &&& bits[d - base]
                &&& forall|k: int|
                    from <= k < clauses.len() ==> ms[
                    #[trigger] clauses[k] as int].view().hits.contains(d)
            },
    )
}

/// Ranges of documents that differ by documents outside the set have the same
/// documents.
proof fn lemma_docs_in_to(set: Set<int>, from: int, a: int, b: int)
    requires
        from <= a,
        from <= b,
        forall|d: int| a <= d < b || b <= d < a ==> !#[trigger] set.contains(d),
    ensures
        docs_in(set, from, a) == docs_in(set, from, b),
{
    if a <= b {
        docs_in_split(set, from, a, b);
        docs_in_none(set, a, b);
        assert(docs_in(set, from, b) =~= docs_in(set, from, a));
    } else {
        docs_in_split(set, from, b, a);
        docs_in_none(set, b, a);
        assert(docs_in(set, from, a) =~= docs_in(set, from, b));
    }
}

/// The documents of the window that all approximations from `from` on have and
/// that the scorers at the positions from `from` to `k` match.
spec fn leap_survivors<S: Scorer>(
    bits: Seq<bool>,
    ms: Seq<S>,
    clauses: Seq<usize>,
    from: int,
    k: int,
    base: int,
) -> Set<int> {
    Set::new(
        |d: int|
            {
                &&& shifted_positions(bits, base).contains(d)
                &&& forall|j: int|
                    from <= j < clauses.len()
                        ==> ms[#[trigger] clauses[j] as int].view().ids.docs.contains(d)
                &&& clauses_match(ms, clauses, from, k, d)
            },
    )
}

/// The documents of `[base, to)` on which each scorer from `from` on was asked are
/// those of the window that survived all the approximations and the confirmations
/// before it; no other scorer was asked.
spec fn only_leap_survivors_confirmed<S: Scorer>(
    before: Seq<S>,
    after: Seq<S>,
    bits: Seq<bool>,
    clauses: Seq<usize>,
    from: int,
    base: int,
    to: int,
) -> bool {
    &&& before.len() == after.len()
    &&& forall|k: int|
        from <= k < clauses.len() ==> after[#[trigger] clauses[k] as int].confirmed()
            == if before[clauses[k] as int].view().two_phase {
            before[clauses[k] as int].confirmed() + docs_in(
                leap_survivors(bits, before, clauses, from, k, base),
                base,
                to,
            )
        } else {
            before[clauses[k] as int].confirmed()
        }
    &&& forall|i: int|
        0 <= i < before.len() && !is_clause(clauses, from, i) ==> (
        #[trigger] after[i]).confirmed() == before[i].confirmed()
}

/// Documents that do not survive are not confirmed.
proof fn lemma_leap_skipped<S: Scorer>(
    ms0: Seq<S>,
    before: Seq<S>,
    after: Seq<S>,
    bits: Seq<bool>,
    clauses: Seq<usize>,
    from: int,
    base: int,
    a: int,
    b: int,
)
    requires
        0 <= from,
        are_clauses(clauses, ms0.len()),
        only_leap_survivors_confirmed(ms0, before, bits, clauses, from, base, a),
        same_records(before, after),
        base <= a,
        base <= b,
        forall|d: int|
            a <= d < b || b <= d < a ==> !#[trigger] leap_survivors(
                bits,
                ms0,
                clauses,
                from,
                from,
                base,
            ).contains(d),
    ensures
        only_leap_survivors_confirmed(ms0, after, bits, clauses, from, base, b),
{
    assert forall|k: int| from <= k < clauses.len() implies after[
    #[trigger] clauses[k] as int].confirmed() == if ms0[clauses[k] as int].view().two_phase {
        ms0[clauses[k] as int].confirmed() + docs_in(
            leap_survivors(bits, ms0, clauses, from, k, base),
            base,
            b,
        )
    } else {
        ms0[clauses[k] as int].confirmed()
    } by {
        let set = leap_survivors(bits, ms0, clauses, from, k, base);
        assert forall|d: int| a <= d < b || b <= d < a implies !#[trigger] set.contains(d) by {
            assert(!leap_survivors(bits, ms0, clauses, from, from, base).contains(d));
        }
        lemma_docs_in_to(set, base, a, b);
        assert(after[clauses[k] as int].confirmed() == before[clauses[k] as int].confirmed());
    }
    assert forall|i: int| 0 <= i < ms0.len() && !is_clause(clauses, from, i) implies (
    #[trigger] after[i]).confirmed() == ms0[i].confirmed() by {
        assert(before[i].confirmed() == ms0[i].confirmed());
    }
}

/// A document of the window that all approximations from `from` on have was
/// confirmed.
proof fn lemma_leap_confirmed<S: Scorer>(
    ms0: Seq<S>,
    aligned: Seq<S>,
    after: Seq<S>,
    bits: Seq<bool>,
    clauses: Seq<usize>,
    from: int,
    base: int,
    doc: int,
)
    requires
        0 <= from,
        are_clauses(clauses, ms0.len()),
        same_members(ms0, aligned),
        only_leap_survivors_confirmed(ms0, aligned, bits, clauses, from, base, doc),
        clauses_on(aligned, clauses, from, clauses.len() as int, doc),
        shifted_positions(bits, base).contains(doc),
        aligned.len() == after.len(),
        base <= doc,
        forall|k: int|
            from <= k < clauses.len() ==> after[#[trigger] clauses[k] as int].confirmed()
                == if aligned[clauses[k] as int].view().two_phase && clauses_match(
                aligned,
                clauses,
                from,
                k,
                doc,
            ) {
                aligned[clauses[k] as int].confirmed().push(doc)
            } else {
                aligned[clauses[k] as int].confirmed()
            },
        forall|i: int|
            0 <= i < aligned.len() && !is_clause(clauses, from, i) ==> (
            #[trigger] after[i]).confirmed() == aligned[i].confirmed(),
    ensures
        only_leap_survivors_confirmed(ms0, after, bits, clauses, from, base, doc + 1),
{
    assert forall|k: int| from <= k < clauses.len() implies after[
    #[trigger] clauses[k] as int].confirmed() == if ms0[clauses[k] as int].view().two_phase {
        ms0[clauses[k] as int].confirmed() + docs_in(
            leap_survivors(bits, ms0, clauses, from, k, base),
            base,
            doc + 1,
        )
    } else {
        ms0[clauses[k] as int].confirmed()
    } by {
        let p = clauses[k] as int;
        let set = leap_survivors(bits, ms0, clauses, from, k, base);
        assert(aligned[p].view() == ms0[p].view().at(aligned[p].view().ids.doc));
        assert forall|j: int| from <= j < clauses.len() implies ms0[
        #[trigger] clauses[j] as int].view().hits == aligned[clauses[j] as int].view().hits
            && ms0[clauses[j] as int].view().ids.docs.contains(doc) by {
            let q = clauses[j] as int;
            assert(aligned[q].view() == ms0[q].view().at(aligned[q].view().ids.doc));
        }
        assert(clauses_match(ms0, clauses, from, k, doc) == clauses_match(
            aligned,
            clauses,
            from,
            k,
            doc,
        ));
        assert(set.contains(doc) == clauses_match(aligned, clauses, from, k, doc));
        docs_in_next(set, base, doc, doc + 1);
        assert(aligned[p].confirmed().push(doc) =~= ms0[p].confirmed() + docs_in(
            set,
            base,
            doc,
        ).push(doc) || !ms0[p].view().two_phase);
    }
    assert forall|i: int| 0 <= i < ms0.len() && !is_clause(clauses, from, i) implies (
    #[trigger] after[i]).confirmed() == ms0[i].confirmed() by {
        assert(aligned[i].confirmed() == ms0[i].confirmed());
    }
}

/// Collects the documents of the window that the scorers at the positions from
/// `from` on match as well.
///
/// A scorer is asked to confirm a document only when all the approximations from
/// `from` on have it and the confirmations before it match it.
#[verifier::rlimit(60)]
fn leap_over_survivors<S: Scorer, C: LeafCollector>(
    collector: &mut C,
    score: i32,
    members: &mut Vec<S>,
    clauses: &[usize],
    from: usize,
    window: &FixedBitSet,
    base: i32,
    max: i32,
) -> (r: Result<(), CollectionError>)
    requires
        intact(old(members)@),
        are_clauses(clauses@, old(members)@.len()),
        from <= clauses@.len(),
        0 <= base < max,
        window@.len() == WINDOW_SIZE,
        forall|x: int| 0 <= x < WINDOW_SIZE && #[trigger] window@[x] ==> x < max - base,
        clauses_positioned(old(members)@, clauses@, from as int, base as int),
        positioned(old(members)@, max as int),
    ensures
        all_infallible(old(members)@) && old(collector).infallible() ==> r is Ok,
        final(collector).infallible() == old(collector).infallible(),
        r is Ok ==> {
            &&& intact(final(members)@)
            &&& same_members(old(members)@, final(members)@)
            &&& positioned(final(members)@, max as int)
            &&& final(collector).collected() == old(collector).collected() + docs_in(
                surviving(window@, old(members)@, clauses@, from as int, base as int),
                base as int,
                max as int,
            )
            &&& all_scored(*old(collector), *final(collector), score)
            &&& final(collector).ranges() == old(collector).ranges()
            &&& only_leap_survivors_confirmed(
                old(members)@,
                final(members)@,
                window@,
                clauses@,
                from as int,
                base as int,
                max as int,
            )
        },
        old(collector).infallible() ==> !(r matches Err(CollectionError::CollectionTerminated)),
        r is Err ==> ended_early(
            *old(collector),
            *final(collector),
            surviving(window@, old(members)@, clauses@, from as int, base as int),
            base as int,
            max as int,
        ),
{
    let ghost ms0 = members@;
    let ghost set = surviving(window@, ms0, clauses@, from as int, base as int);
    let ghost collected0 = collector.collected();
    let ghost scores0 = collector.scores();
    let mut window_match: i32 = advance_in_window(window, 0);
    let ghost mut done: int = 0;
    proof {
        assert(collected0 + docs_in(set, base as int, base as int) =~= collected0);
        with_score_added(scores0, 0, 0, score);
        assert forall|k: int| from <= k < clauses@.len() implies members@[
        #[trigger] clauses@[k] as int].confirmed() == if ms0[
        clauses@[k] as int].view().two_phase {
            ms0[clauses@[k] as int].confirmed() + docs_in(
                leap_survivors(window@, ms0, clauses@, from as int, k, base as int),
                base as int,
                base as int,
            )
        } else {
            ms0[clauses@[k] as int].confirmed()
        } by {
            let record = ms0[clauses@[k] as int].confirmed();
            assert(record + Seq::<int>::empty() =~= record);
        }
    }
    while window_match != NO_MORE_DOCS
        invariant
            ms0 == old(members)@,
            intact(ms0),
            set == surviving(window@, ms0, clauses@, from as int, base as int),
            collected0 == old(collector).collected(),
            scores0 == old(collector).scores(),
            collector.scores() == with_score(
                scores0,
                collector.collected().len() - collected0.len(),
                score,
            ),
            intact(members@),
            same_members(ms0, members@),
            are_clauses(clauses@, members@.len()),
            from <= clauses@.len(),
            0 <= base < max,
            0 <= done,
            window@.len() == WINDOW_SIZE,
            forall|x: int| 0 <= x < WINDOW_SIZE && #[trigger] window@[x] ==> x < max - base,
            is_window_next(window@, done, window_match),
            clauses_positioned(members@, clauses@, from as int, base + done),
            positioned(members@, max as int),
            collector.infallible() == old(collector).infallible(),
            collector.ranges() == old(collector).ranges(),
            only_leap_survivors_confirmed(
                ms0,
                members@,
                window@,
                clauses@,
                from as int,
                base as int,
                base + done,
            ),
            collector.collected() == collected0 + docs_in(set, base as int, base + done),
        decreases
                if window_match == NO_MORE_DOCS {
                    0
                } else {
                    WINDOW_SIZE - window_match
                },
    {
        let ghost before = members@;
        assert(window@[window_match as int]);
        let doc: i32 = base + window_match;
        proof {
            lemma_same_conjunction::<S, FixedBitSet>(ms0, before, Seq::empty(), None);
            assert forall|k: int| from <= k < clauses@.len() implies not_passed(
                before[#[trigger] clauses@[k] as int],
                doc as int,
            ) by {
                assert(not_passed(before[clauses@[k] as int], base + done));
            }
            assert forall|d: int| base + done <= d < doc implies !#[trigger] set.contains(d) by {
                assert(!window@[d - base]);
            }
            lemma_docs_in_to(set, base as int, base + done, doc as int);
            let asked = leap_survivors(
                window@,
                ms0,
                clauses@,
                from as int,
                from as int,
                base as int,
            );
            assert forall|d: int| base + done <= d < doc implies !#[trigger] asked.contains(d) by {
                assert(!window@[d - base]);
            }
            lemma_leap_skipped(
                ms0,
                before,
                before,
                window@,
                clauses@,
                from as int,
                base as int,
                base + done,
                doc as int,
            );
        }
        assert(ended_early(*old(collector), *collector, set, base as int, max as int));
        match failed(align(members, clauses, from, doc))? {
            Some(next) => {
                proof {
                    lemma_same_members_trans(ms0, before, members@);
                    let k = choose|k: int|
                        from <= k < clauses@.len() && #[trigger] gap_at(
                            members@,
                            clauses@,
                            k,
                            doc as int,
                            next as int,
                        );
                    assert forall|d: int| doc <= d < next implies !#[trigger] set.contains(d) by {
                        let p = clauses@[k] as int;
                        assert(members@[p].view() == ms0[p].view().at(members@[p].view().ids.doc));
                        assert(ms0[p].view().valid());
                        if ms0[clauses@[k] as int].view().hits.contains(d) {
                            assert(members@[p].view().ids.docs.contains(d));
                        }
                    }
                    lemma_docs_in_to(set, base as int, doc as int, next as int);
                    let asked = leap_survivors(
                        window@,
                        ms0,
                        clauses@,
                        from as int,
                        from as int,
                        base as int,
                    );
                    assert forall|d: int| doc <= d < next implies !#[trigger] asked.contains(d) by {
                        let p = clauses@[k] as int;
                        assert(members@[p].view() == ms0[p].view().at(members@[p].view().ids.doc));
                        assert(!members@[clauses@[k] as int].view().ids.docs.contains(d));
                        assert(!ms0[clauses@[k] as int].view().ids.docs.contains(d));
                    }
                    lemma_leap_skipped(
                        ms0,
                        before,
                        members@,
                        window@,
                        clauses@,
                        from as int,
                        base as int,
                        doc as int,
                        next as int,
                    );
                    assert forall|k: int| from <= k < clauses@.len() implies not_passed(
                        members@[#[trigger] clauses@[k] as int],
                        next as int,
                    ) by {
                        assert(not_passed(members@[clauses@[k] as int], doc as int));
                    }
                    done = next - base;
                }
                window_match = advance_in_window(window, next - base);
            },
            None => {
                let ghost aligned = members@;
                proof {
                    lemma_same_members_trans(ms0, before, aligned);
                    lemma_same_conjunction::<S, FixedBitSet>(ms0, aligned, Seq::empty(), None);
                }
                let matched: bool = failed(confirm_all(members, clauses, from, doc))?;
                proof {
                    lemma_leap_skipped(
                        ms0,
                        before,
                        aligned,
                        window@,
                        clauses@,
                        from as int,
                        base as int,
                        doc as int,
                        doc as int,
                    );
                    lemma_leap_confirmed(
                        ms0,
                        aligned,
                        members@,
                        window@,
                        clauses@,
                        from as int,
                        base as int,
                        doc as int,
                    );
                    lemma_same_members_trans(ms0, aligned, members@);
                    lemma_views_positioned(aligned, members@, max as int);
                    assert forall|k: int| from <= k < clauses@.len() implies not_passed(
                        members@[#[trigger] clauses@[k] as int],
                        doc + 1,
                    ) by {
                        assert(not_passed(aligned[clauses@[k] as int], doc as int));
                    }
                    assert forall|k: int| from <= k < clauses@.len() implies ms0[
                    #[trigger] clauses@[k] as int].view().hits == aligned[
                    clauses@[k] as int].view().hits by {
                    }
                    assert(matched == set.contains(doc as int));
                    docs_in_next(set, base as int, doc as int, doc + 1);
                }
                if matched {
                    let ghost n = collector.collected().len() - collected0.len();
                    assert(collector.collected().push(doc as int) =~= collected0 + docs_in(
                        set,
                        base as int,
                        doc + 1,
                    ));
                    let collected = collector.collect(doc, score);
                    assert(ended_early(*old(collector), *collector, set, base as int, max as int));
                    collected?;
                    proof {
                        with_score_added(scores0, n, 0, score);
                    }
                    assert(collector.collected() =~= collected0 + docs_in(
                        set,
                        base as int,
                        doc + 1,
                    ));
                }
                proof {
                    done = window_match + 1;
                }
                window_match = advance_in_window(window, window_match + 1);
            },
        }
    }
    proof {
        assert forall|d: int| base + done <= d < max || max <= d < base + done implies !#[trigger] set.contains(
            d) by {
            if 0 <= d - base < WINDOW_SIZE {
                assert(!window@[d - base]);
            }
        }
        lemma_docs_in_to(set, base as int, base + done, max as int);
        let asked = leap_survivors(
            window@,
            ms0,
            clauses@,
            from as int,
            from as int,
            base as int,
        );
        assert forall|d: int| base + done <= d < max || max <= d < base + done implies !#[trigger] asked.contains(
            d) by {
            if 0 <= d - base < WINDOW_SIZE {
                assert(!window@[d - base]);
            }
        }
        lemma_leap_skipped(
            ms0,
            members@,
            members@,
            window@,
            clauses@,
            from as int,
            base as int,
            base + done,
            max as int,
        );
    }
    Ok(())
}

/// A window that holds what the first clauses match, and the survivors of it.
proof fn lemma_surviving<S: Scorer, B: Bits>(
    bits: Seq<bool>,
    ms0: Seq<S>,
    ms: Seq<S>,
    clauses: Seq<usize>,
    accept_docs: Option<&B>,
    from: int,
    base: int,
    max: int,
)
    requires
        same_members(ms0, ms),
        are_clauses(clauses, ms0.len()),
        0 <= from <= clauses.len(),
        base < max <= base + WINDOW_SIZE,
        window_holds(bits, clause_conjunction(ms0, clauses.take(from), accept_docs), base, max),
    ensures
        docs_in(surviving(bits, ms, clauses, from, base), base, max) == docs_in(
            clause_conjunction(ms0, clauses, accept_docs),
            base,
            max,
        ),
        forall|to: int|
            base <= to <= max ==> #[trigger] docs_in(
                surviving(bits, ms, clauses, from, base),
                base,
                to,
            ) == docs_in(clause_conjunction(ms0, clauses, accept_docs), base, to),
{
    let a = surviving(bits, ms, clauses, from, base);
    let b = clause_conjunction(ms0, clauses, accept_docs);
    let firsts = clause_conjunction(ms0, clauses.take(from), accept_docs);
    assert forall|d: int| base <= d < max implies a.contains(d) == #[trigger] b.contains(d) by {
        assert(bits[d - base] == firsts.contains(base + (d - base)));
        assert forall|k: int| 0 <= k < clauses.len() implies ms[
        #[trigger] clauses[k] as int].view().hits == ms0[clauses[k] as int].view().hits by {
        }
        if a.contains(d) {
            assert forall|k: int| 0 <= k < clauses.len() implies ms0[
            #[trigger] clauses[k] as int].view().hits.contains(d) by {
                if k < from {
                    assert(clauses.take(from)[k] == clauses[k]);
                }
            }
        }
        if b.contains(d) {
            assert forall|k: int| 0 <= k < from implies ms0[
            #[trigger] clauses.take(from)[k] as int].view().hits.contains(d) by {
                assert(clauses.take(from)[k] == clauses[k]);
            }
            assert(firsts.contains(d));
        }
    }
    docs_in_same(a, b, base, max);
    assert forall|to: int| base <= to <= max implies #[trigger] docs_in(a, base, to) == docs_in(
        b,
        base,
        to,
    ) by {
        docs_in_same(a, b, base, to);
    }
}

/// Clearing what one more clause does not match.
proof fn lemma_window_step<S: Scorer, B: Bits>(
    before: Seq<bool>,
    after: Seq<bool>,
    ms0: Seq<S>,
    clauses: Seq<usize>,
    accept_docs: Option<&B>,
    k: int,
    base: int,
    max: int,
)
    requires
        0 <= k < clauses.len(),
        window_holds(before, clause_conjunction(ms0, clauses.take(k), accept_docs), base, max),
        after.len() == WINDOW_SIZE,
        forall|x: int|
            0 <= x < WINDOW_SIZE ==> #[trigger] after[x] == (before[x]
                && ms0[clauses[k] as int].view().hits.contains(base + x)),
    ensures
        window_holds(after, clause_conjunction(ms0, clauses.take(k + 1), accept_docs), base, max),
{
    let a = clause_conjunction(ms0, clauses.take(k), accept_docs);
    let b = clause_conjunction(ms0, clauses.take(k + 1), accept_docs);
    assert forall|d: int| #[trigger]
        b.contains(d) == (a.contains(d) && ms0[clauses[k] as int].view().hits.contains(d)) by {
        if b.contains(d) {
            assert(clauses.take(k + 1)[k] == clauses[k]);
            assert forall|i: int| 0 <= i < k implies ms0[
            #[trigger] clauses.take(k)[i] as int].view().hits.contains(d) by {
                assert(clauses.take(k + 1)[i] == clauses.take(k)[i]);
            }
        }
        if a.contains(d) && ms0[clauses[k] as int].view().hits.contains(d) {
            assert forall|i: int| 0 <= i < k + 1 implies ms0[
            #[trigger] clauses.take(k + 1)[i] as int].view().hits.contains(d) by {
                if i < k {
                    assert(clauses.take(k + 1)[i] == clauses.take(k)[i]);
                }
            }
        }
    }
}

/// Collects the accepted documents of `[window_base, window_max)` that the scorers
/// at the given positions match, intersecting bit sets as long as enough documents
/// survive.
fn score_window_using_bit_set<S: Scorer, B: Bits, C: LeafCollector>(
    collector: &mut C,
    score: i32,
    accept_docs: Option<&B>,
    members: &mut Vec<S>,
    clauses: &[usize],
    window_matches: &mut FixedBitSet,
    clause_window_matches: &mut FixedBitSet,
    window_base: i32,
    window_max: i32,
) -> (r: Result<(), CollectionError>)
    requires
        intact(old(members)@),
        are_clauses(clauses@, old(members)@.len()),
        all_clear(old(window_matches)@),
        all_clear(old(clause_window_matches)@),
        0 <= window_base < window_max <= window_base + WINDOW_SIZE,
        positioned(old(members)@, window_base as int),
    ensures
        all_infallible(old(members)@) && old(collector).infallible() ==> r is Ok,
        final(collector).infallible() == old(collector).infallible(),
        r is Ok ==> {
            &&& intact(final(members)@)
            &&& same_members(old(members)@, final(members)@)
            &&& positioned(final(members)@, window_max as int)
            &&& all_clear(final(window_matches)@)
            &&& all_clear(final(clause_window_matches)@)
            &&& final(collector).collected() == old(collector).collected() + docs_in(
                clause_conjunction(old(members)@, clauses@, accept_docs),
                window_base as int,
                window_max as int,
            )
            &&& all_scored(*old(collector), *final(collector), score)
            &&& final(collector).ranges() == old(collector).ranges()
        },
        old(collector).infallible() ==> !(r matches Err(CollectionError::CollectionTerminated)),
        r is Err ==> ended_early(
            *old(collector),
            *final(collector),
            clause_conjunction(old(members)@, clauses@, accept_docs),
            window_base as int,
            window_max as int,
        ),
{
    let ghost set = clause_conjunction(members@, clauses@, accept_docs);
    proof {
        let none = docs_in(set, window_base as int, window_base as int);
        assert(collector.collected() + none =~= collector.collected());
        assert(ended_early(
            *old(collector),
            *collector,
            set,
            window_base as int,
            window_max as int,
        ));
    }
    let ghost ms0 = members@;
    let ghost base = window_base as int;
    let ghost max = window_max as int;
    let lead_count: usize = if clauses.len() == 0 {
        0
    } else {
        1
    };
    let ghost lead_set = Set::new(
        |d: int|
            forall|k: int|
                0 <= k < lead_count ==> ms0[#[trigger] clauses@[k] as int].view().hits.contains(d),
    );
    assert(positioned(ms0, max));
    if clauses.len() == 0 {
        window_matches.set_range(0, (window_max - window_base) as usize);
        assert(window_holds(window_matches@, lead_set, base, max));
    } else {
        let lead: usize = clauses[0];
        assert(ms0[clauses@[0] as int].infallible() == ms0[lead as int].infallible());
        failed(advance_to(members, lead, window_base))?;
        let ghost advanced = members@;
        proof {
            lemma_advanced_positioned(ms0, advanced, lead as int, base);
            assert(advanced[lead as int].view().hits == ms0[lead as int].view().hits);
        }
        failed(load_window(members, lead, window_matches, window_base, window_max))?;
        proof {
            lemma_same_members_trans(ms0, advanced, members@);
            let hits = ms0[lead as int].view().hits;
            assert forall|x: int| 0 <= x < WINDOW_SIZE implies #[trigger] window_matches@[x] == (x
                < max - base && lead_set.contains(base + x)) by {
                assert(clauses@[0] == lead);
                assert(lead_set.contains(base + x) == hits.contains(base + x));
            }
        }
    }
    let ghost loaded = window_matches@;
    if let Some(bits) = accept_docs {
        apply_mask(bits, window_matches, window_base, window_max);
    }
    proof {
        let firsts = clause_conjunction(ms0, clauses@.take(lead_count as int), accept_docs);
        assert forall|x: int| 0 <= x < WINDOW_SIZE implies #[trigger] window_matches@[x] == (x < max
            - base && firsts.contains(base + x)) by {
            assert(loaded[x] == (x < max - base && lead_set.contains(base + x)));
            let d = base + x;
            if firsts.contains(d) {
                assert forall|k: int| 0 <= k < lead_count implies ms0[
                #[trigger] clauses@[k] as int].view().hits.contains(d) by {
                    assert(clauses@.take(lead_count as int)[k] == clauses@[k]);
                }
            }
            if lead_set.contains(d) && accepts(accept_docs, d) {
                assert forall|k: int| 0 <= k < clauses@.take(lead_count as int).len() implies ms0[
                #[trigger] clauses@.take(lead_count as int)[k] as int].view().hits.contains(d) by {
                    assert(clauses@.take(lead_count as int)[k] == clauses@[k]);
                }
                assert(firsts.contains(d));
            }
        }
        assert(window_holds(window_matches@, firsts, base, max));
        assert forall|k: int| lead_count <= k < clauses@.len() implies not_passed(
            members@[#[trigger] clauses@[k] as int],
            base,
        ) by {
            assert(clauses@[k] != clauses@[0]);
            assert(members@[clauses@[k] as int] == ms0[clauses@[k] as int]);
            let p = clauses@[k] as int;
            assert forall|d: int| #[trigger]
                members@[p].view().ids.docs.contains(d) && d >= base implies d
                >= members@[p].view().ids.doc by {
                assert(ms0[p].view().ids.docs.contains(d));
            }
        }
    }
    let window_size: i32 = window_max - window_base;
    let threshold: i32 = window_size / DENSITY_THRESHOLD_INVERSE;
    let bulk_confirm_threshold: i32 = window_size / 4;
    let mut up_to: usize = lead_count;
    let mut cardinality: i32 = window_matches.cardinality() as i32;
    while up_to < clauses.len() && cardinality >= threshold
        invariant
            ms0 == old(members)@,
            intact(ms0),
            intact(members@),
            same_members(ms0, members@),
            are_clauses(clauses@, ms0.len()),
            base == window_base,
            max == window_max,
            0 <= window_base < window_max <= window_base + WINDOW_SIZE,
            up_to <= clauses@.len(),
            all_clear(clause_window_matches@),
            window_holds(
                window_matches@,
                clause_conjunction(ms0, clauses@.take(up_to as int), accept_docs),
                base,
                max,
            ),
            clauses_positioned(members@, clauses@, up_to as int, base),
            positioned(members@, max),
            set == clause_conjunction(ms0, clauses@, accept_docs),
            ended_early(*old(collector), *collector, set, base, max),
        decreases clauses.len() - up_to,
    {
        let other: usize = clauses[up_to];
        let ghost before = members@;
        let ghost bits0 = window_matches@;
        proof {
            lemma_same_conjunction::<S, FixedBitSet>(ms0, before, Seq::empty(), None);
            assert(not_passed(before[clauses@[up_to as int] as int], base));
        }
        failed(advance_to(members, other, window_base))?;
        let ghost advanced = members@;
        proof {
            lemma_same_members_trans(ms0, before, advanced);
            lemma_same_conjunction::<S, FixedBitSet>(ms0, advanced, Seq::empty(), None);
            lemma_advanced_positioned(before, advanced, other as int, base);
            let m = advanced[other as int];
            assert(not_passed(m, base));
            assert(m.view().hits == ms0[other as int].view().hits);
        }
        if members[other].has_two_phase() && cardinality < bulk_confirm_threshold {
            failed(confirm_survivors(members, other, window_matches, window_base, window_max))?;
        } else {
            failed(
                intersect_in_bulk(
                    members,
                    other,
                    window_matches,
                    clause_window_matches,
                    window_base,
                    window_max,
                ),
            )?;
        }
        proof {
            lemma_same_members_trans(ms0, advanced, members@);
            lemma_window_step(
                bits0,
                window_matches@,
                ms0,
                clauses@,
                accept_docs,
                up_to as int,
                base,
                max,
            );
            assert forall|k: int| up_to + 1 <= k < clauses@.len() implies not_passed(
                members@[#[trigger] clauses@[k] as int],
                base,
            ) by {
                assert(clauses@[k] != clauses@[up_to as int]);
                assert(not_passed(before[clauses@[k] as int], base));
            }
        }
        up_to += 1;
        cardinality = window_matches.cardinality() as i32;
    }
    proof {
        lemma_same_conjunction::<S, FixedBitSet>(ms0, members@, Seq::empty(), None);
        lemma_surviving(
            window_matches@,
            ms0,
            members@,
            clauses@,
            accept_docs,
            up_to as int,
            base,
            max,
        );
    }
    if up_to < clauses.len() {
        let ghost before = members@;
        let ghost found = surviving(window_matches@, before, clauses@, up_to as int, base);
        let leapt = leap_over_survivors(
            collector,
            score,
            members,
            clauses,
            up_to,
            window_matches,
            window_base,
            window_max,
        );
        proof {
            if ended_early(*old(collector), *collector, found, base, max) {
                let end = choose|end: int|
                    base <= end <= max && collector.collected() == old(collector).collected()
                        + #[trigger] docs_in(found, base, end);
                assert(docs_in(found, base, end) == docs_in(set, base, end));
                assert(ended_early(*old(collector), *collector, set, base, max));
            }
        }
        leapt?;
        proof {
            lemma_same_members_trans(ms0, before, members@);
        }
    } else {
        proof {
            let bits = window_matches@;
            let a = shifted_positions(bits, base);
            let b = surviving(bits, members@, clauses@, up_to as int, base);
            docs_in_same(a, b, base, max);
            assert forall|d: int| max <= d < base + WINDOW_SIZE implies !#[trigger] a.contains(
                d,
            ) by {
                assert(!bits[d - base]);
            }
            lemma_docs_in_to(a, base, max, base + WINDOW_SIZE);
        }
        let ghost found = shifted_positions(window_matches@, base);
        let collected = collector.collect_bits(window_matches, window_base, score);
        proof {
            if collected is Err {
                let end = choose|end: int|
                    base <= end <= base + WINDOW_SIZE && collector.collected() == old(
                        collector).collected() + #[trigger] docs_in(found, base, end);
                let to = lesser(end, max);
                let bits = window_matches@;
                assert forall|d: int| to <= d < end implies !#[trigger] found.contains(d) by {
                    assert(!bits[d - base]);
                }
                lemma_docs_in_to(found, base, end, to);
                docs_in_same(
                    found,
                    surviving(bits, members@, clauses@, up_to as int, base),
                    base,
                    to,
                );
                assert(ended_early(*old(collector), *collector, set, base, max));
            }
        }
        collected?;
    }
    window_matches.clear_all();
    Ok(())
}

/// Orders plain scorers before two-phase ones, and by cost among each other.
pub open spec fn by_confirmation_and_cost<S: Scorer>(ms: Seq<S>) -> Seq<(i64, i64)> {
    ms.map_values(
        |m: S|
            (
                if m.view().two_phase {
                    1i64
                } else {
                    0
                },
                m.view().cost,
            ),
    )
}

/// The first document at or after `min` that no scorer has passed.
pub open spec fn start_of<S: Scorer>(ms: Seq<S>, min: int) -> int
    decreases ms.len(),
{
    if ms.len() == 0 {
        min
    } else {
        let before = start_of(ms.drop_last(), min);
        if before >= ms.last().view().ids.doc {
            before
        } else {
            ms.last().view().ids.doc
        }
    }
}

proof fn lemma_start_of<S: Scorer>(ms: Seq<S>, min: int)
    ensures
        start_of(ms, min) >= min,
        forall|i: int| 0 <= i < ms.len() ==> (#[trigger] ms[i]).view().ids.doc <= start_of(ms, min),
        start_of(ms, min) == min || exists|i: int|
            0 <= i < ms.len() && (#[trigger] ms[i]).view().ids.doc == start_of(ms, min),
    decreases ms.len(),
{
    if ms.len() > 0 {
        let rest = ms.drop_last();
        lemma_start_of(rest, min);
        assert forall|i: int| 0 <= i < ms.len() implies (#[trigger] ms[i]).view().ids.doc
            <= start_of(ms, min) by {
            if i < ms.len() - 1 {
                assert(rest[i] == ms[i]);
            }
        }
        if start_of(ms, min) != min {
            if start_of(rest, min) >= ms.last().view().ids.doc {
                let i = choose|i: int|
                    0 <= i < rest.len() && (#[trigger] rest[i]).view().ids.doc == start_of(
                        rest,
                        min,
                    );
                assert(ms[i].view().ids.doc == start_of(ms, min));
            } else {
                assert(ms[ms.len() - 1].view().ids.doc == start_of(ms, min));
            }
        }
    }
}

/// Starting at the first document that no scorer has passed loses no document
/// from `min` on, when no scorer has passed one of its documents from there on.
pub proof fn start_loses_no_document<S: Scorer, B: Bits>(
    ms: Seq<S>,
    accept_docs: Option<&B>,
    min: int,
    max: int,
)
    requires
        forall|i: int| 0 <= i < ms.len() ==> (#[trigger] ms[i]).view().valid(),
        positioned(ms, min),
    ensures
        docs_in(conjunction(ms, accept_docs), start_of(ms, min), max) == docs_in(
            conjunction(ms, accept_docs),
            min,
            max,
        ),
{
    let set = conjunction(ms, accept_docs);
    let start = start_of(ms, min);
    lemma_start_of(ms, min);
    if start != min {
        let i = choose|i: int|
            0 <= i < ms.len() && (#[trigger] ms[i]).view().ids.doc == start_of(ms, min);
        assert forall|d: int| min <= d < start implies !#[trigger] set.contains(d) by {
            if set.contains(d) {
                assert(ms[i].view().hits.contains(d));
                assert(ms[i].view().ids.docs.contains(d));
            }
        }
        if start <= max {
            docs_in_split(set, min, start, max);
            docs_in_none(set, min, start);
            assert(docs_in(set, min, max) =~= docs_in(set, start, max));
        } else {
            docs_in_none(set, min, max);
        }
    }
}

/// The window clauses and the clauses that match the whole window together.
spec fn covered<S: Scorer>(ms: Seq<S>, j: int, min: int, end: int) -> bool {
    forall|d: int| min <= d < end ==> #[trigger] ms[j].view().hits.contains(d)
}

proof fn lemma_window_clauses<S: Scorer, B: Bits>(
    ms: Seq<S>,
    clauses: Seq<usize>,
    accept_docs: Option<&B>,
    min: int,
    end: int,
)
    requires
        are_clauses(clauses, ms.len()),
        ms.len() <= usize::MAX,
        forall|j: int|
            0 <= j < ms.len() ==> clauses.contains(j as usize) || #[trigger] covered(
                ms,
                j,
                min,
                end,
            ),
    ensures
        docs_in(clause_conjunction(ms, clauses, accept_docs), min, end) == docs_in(
            conjunction(ms, accept_docs),
            min,
            end,
        ),
        forall|to: int|
            min <= to <= end ==> #[trigger] docs_in(
                clause_conjunction(ms, clauses, accept_docs),
                min,
                to,
            ) == docs_in(conjunction(ms, accept_docs), min, to),
{
    let a = clause_conjunction(ms, clauses, accept_docs);
    let b = conjunction(ms, accept_docs);
    assert forall|d: int| min <= d < end implies a.contains(d) == #[trigger] b.contains(d) by {
        if a.contains(d) {
            assert forall|j: int| 0 <= j < ms.len() implies (#[trigger] ms[j]).view().hits.contains(
                d,
            ) by {
                if clauses.contains(j as usize) {
                    let k = choose|k: int| 0 <= k < clauses.len() && clauses[k] == j as usize;
                    assert(ms[clauses[k] as int].view().hits.contains(d));
                } else {
                    assert(covered(ms, j, min, end));
                }
            }
        }
        if b.contains(d) {
            assert forall|k: int| 0 <= k < clauses.len() implies ms[
            #[trigger] clauses[k] as int].view().hits.contains(d) by {
            }
        }
    }
    docs_in_same(a, b, min, end);
    assert forall|to: int| min <= to <= end implies #[trigger] docs_in(a, min, to) == docs_in(
        b,
        min,
        to,
    ) by {
        docs_in_same(a, b, min, to);
    }
}

/// A range has no more documents than its length.
proof fn lemma_docs_in_len(set: Set<int>, from: int, to: int)
    requires
        from <= to,
    ensures
        docs_in(set, from, to).len() <= to - from,
    decreases to - from,
{
    if from < to {
        lemma_docs_in_len(set, from, to - 1);
    }
}

/// A range all of whose documents are in the set.
proof fn lemma_docs_in_all(set: Set<int>, from: int, to: int)
    requires
        from <= to,
        forall|d: int| from <= d < to ==> #[trigger] set.contains(d),
    ensures
        docs_in(set, from, to) == Seq::new((to - from) as nat, |i: int| from + i),
    decreases to - from,
{
    if from < to {
        lemma_docs_in_all(set, from, to - 1);
        assert(set.contains(to - 1));
    }
    assert(docs_in(set, from, to) =~= Seq::new((to - from) as nat, |i: int| from + i));
}

/// All scorers match `d`.
pub open spec fn all_match<S: Scorer>(ms: Seq<S>, d: int) -> bool {
    forall|i: int| 0 <= i < ms.len() ==> (#[trigger] ms[i]).view().hits.contains(d)
}

/// The scorer at `i` is on `docs[i]` once it was moved to its first document at or
/// after that of the scorer before it, or at or after `min`.
pub open spec fn stands_at<S: Scorer>(ms: Seq<S>, min: int, docs: Seq<int>, i: int) -> bool {
    let ids = ms[i].view().ids;
    let from = if i == 0 {
        min
    } else {
        docs[i - 1]
    };
    if ids.doc >= from {
        docs[i] == ids.doc
    } else {
        is_first_from(ids.docs, from, docs[i])
    }
}

/// The documents that the scorers are on once they were moved one after the other,
/// until one of them has no document before `max`. The window starts at the last
/// one.
pub open spec fn is_alignment<S: Scorer>(ms: Seq<S>, min: int, max: int, docs: Seq<int>) -> bool {
    &&& 0 < docs.len() <= ms.len()
    &&& forall|i: int| 0 <= i < docs.len() ==> #[trigger] stands_at(ms, min, docs, i)
    &&& forall|i: int| 0 <= i < docs.len() - 1 ==> #[trigger] docs[i] < max
    &&& docs.len() < ms.len() ==> docs.last() >= max
}

/// The end of the run of matches of the scorer at `i`.
pub open spec fn run_end<S: Scorer>(ms: Seq<S>, docs: Seq<int>, i: int) -> int {
    (ms[i].view().runs)(docs[i])
}

/// Whether the scorer at `i` is known to match the whole first half of a window
/// that starts at `start`.
pub open spec fn covers_half<S: Scorer>(
    ms: Seq<S>,
    docs: Seq<int>,
    i: int,
    start: int,
    max: int,
) -> bool {
    run_end(ms, docs, i) >= lesser(start + WINDOW_SIZE / 2, max)
}

/// Whether all scorers are known to match the whole first half of the window.
pub open spec fn all_cover_half<S: Scorer>(
    ms: Seq<S>,
    docs: Seq<int>,
    start: int,
    max: int,
) -> bool {
    forall|i: int| 0 <= i < ms.len() ==> #[trigger] covers_half(ms, docs, i, start, max)
}

/// `end` is the least of `max` and the ends of the runs of those of the first `n`
/// scorers that match the whole first half of the window.
pub open spec fn is_least_run_end<S: Scorer>(
    ms: Seq<S>,
    docs: Seq<int>,
    n: int,
    start: int,
    max: int,
    end: int,
) -> bool {
    &&& end <= max
    &&& forall|i: int|
        0 <= i < n && #[trigger] covers_half(ms, docs, i, start, max) ==> end <= run_end(
            ms,
            docs,
            i,
        )
    &&& end == max || exists|i: int|
        0 <= i < n && #[trigger] covers_half(ms, docs, i, start, max) && end == run_end(
            ms,
            docs,
            i,
        )
}

/// `next` is where the window that starts at the last one of `docs` ends: at the
/// least run end, and after no more than [`WINDOW_SIZE`] documents unless the whole
/// window matches. A window at or after `max` is empty.
pub open spec fn is_window_end<S: Scorer>(
    ms: Seq<S>,
    docs: Seq<int>,
    max: int,
    all_accepted: bool,
    next: int,
) -> bool {
    let start = docs.last();
    if start >= max {
        next == start
    } else if all_accepted && all_cover_half(ms, docs, start, max) {
        is_least_run_end(ms, docs, ms.len() as int, start, max, next)
    } else {
        exists|end: int| #[trigger]
            is_least_run_end(ms, docs, ms.len() as int, start, max, end) && next == lesser(
                end,
                start + WINDOW_SIZE,
            )
    }
}

/// What a collector receives in one piece of a window that ends at `next`: all of
/// it when all scorers match it and all documents are accepted.
pub open spec fn ranges_in_one_piece<S: Scorer>(
    ms: Seq<S>,
    docs: Seq<int>,
    max: int,
    all_accepted: bool,
    next: int,
) -> Seq<(int, int)> {
    let start = docs.last();
    if start < max && all_accepted && all_cover_half(ms, docs, start, max) {
        seq![(start, next)]
    } else {
        Seq::empty()
    }
}

/// The window depends only on what the scorers match.
proof fn lemma_same_runs<S: Scorer>(
    a: Seq<S>,
    b: Seq<S>,
    docs: Seq<int>,
    start: int,
    max: int,
    end: int,
)
    requires
        same_members(a, b),
    ensures
        all_cover_half(a, docs, start, max) == all_cover_half(b, docs, start, max),
        is_least_run_end(a, docs, a.len() as int, start, max, end) == is_least_run_end(
            b,
            docs,
            b.len() as int,
            start,
            max,
            end,
        ),
{
    assert forall|i: int| 0 <= i < a.len() implies run_end(a, docs, i) == run_end(b, docs, i)
        && covers_half(a, docs, i, start, max) == covers_half(b, docs, i, start, max) by {
        assert(b[i].view() == a[i].view().at(b[i].view().ids.doc));
    }
    if all_cover_half(a, docs, start, max) {
        assert forall|i: int| 0 <= i < b.len() implies #[trigger] covers_half(
            b,
            docs,
            i,
            start,
            max,
        ) by {
            assert(covers_half(a, docs, i, start, max));
        }
    }
    if all_cover_half(b, docs, start, max) {
        assert forall|i: int| 0 <= i < a.len() implies #[trigger] covers_half(
            a,
            docs,
            i,
            start,
            max,
        ) by {
            assert(covers_half(b, docs, i, start, max));
        }
    }
    lemma_least_run_end(a, b, docs, start, max, end);
    lemma_least_run_end(b, a, docs, start, max, end);
}

proof fn lemma_least_run_end<S: Scorer>(
    a: Seq<S>,
    b: Seq<S>,
    docs: Seq<int>,
    start: int,
    max: int,
    end: int,
)
    requires
        a.len() == b.len(),
        forall|i: int|
            0 <= i < a.len() ==> #[trigger] run_end(a, docs, i) == run_end(b, docs, i),
    ensures
        is_least_run_end(a, docs, a.len() as int, start, max, end) ==> is_least_run_end(
            b,
            docs,
            b.len() as int,
            start,
            max,
            end,
        ),
{
    if is_least_run_end(a, docs, a.len() as int, start, max, end) {
        assert forall|i: int|
            0 <= i < b.len() && #[trigger] covers_half(b, docs, i, start, max) implies end
            <= run_end(b, docs, i) by {
            assert(run_end(a, docs, i) == run_end(b, docs, i));
            assert(covers_half(a, docs, i, start, max));
        }
        if end != max {
            let i = choose|i: int|
                0 <= i < a.len() && #[trigger] covers_half(a, docs, i, start, max) && end
                    == run_end(a, docs, i);
            assert(run_end(a, docs, i) == run_end(b, docs, i));
            assert(covers_half(b, docs, i, start, max));
        }
    }
}

/// Moving the scorers to their first documents at or after `min` one after the
/// other, each time from the document that the scorer before it is on.
fn advance_all<S: Scorer>(members: &mut Vec<S>, min: i32, max: i32) -> (r: Result<i32, LuceneError>)
    requires
        intact(old(members)@),
        old(members)@.len() > 0,
        0 <= min < max,
        positioned(old(members)@, min as int),
    ensures
        all_infallible(old(members)@) ==> r is Ok,
        r matches Ok(start) ==> {
            &&& start >= min
            &&& intact(final(members)@)
            &&& same_members(old(members)@, final(members)@)
            &&& positioned(final(members)@, start as int)
            &&& forall|d: int| min <= d < start ==> !#[trigger] all_match(old(members)@, d)
            &&& exists|docs: Seq<int>| #[trigger]
                is_alignment(old(members)@, min as int, max as int, docs) && docs.last() == start
                    && (start < max ==> docs.len() == final(members)@.len() && forall|i: int|
                    0 <= i < docs.len() ==> (#[trigger] final(members)@[i]).view().ids.doc
                        == docs[i])
            &&& start < max ==> forall|i: int|
                0 <= i < final(members)@.len() ==> {
                    &&& (#[trigger] final(members)@[i]).view().ids.doc <= start
                    &&& final(members)@[i].view().ids.docs.contains(
                        final(members)@[i].view().ids.doc,
                    )
                }
        },
{
    let ghost ms0 = members@;
    let mut start: i32 = min;
    let mut i: usize = 0;
    let ghost mut docs: Seq<int> = Seq::empty();
    while i < members.len()
        invariant
            ms0 == old(members)@,
            intact(ms0),
            intact(members@),
            same_members(ms0, members@),
            i <= members@.len(),
            0 <= min <= start < max,
            docs.len() == i,
            i == 0 ==> start == min,
            i > 0 ==> docs.last() == start,
            forall|j: int| 0 <= j < i ==> #[trigger] docs[j] < max,
            forall|j: int| 0 <= j < i ==> #[trigger] stands_at(ms0, min as int, docs, j),
            forall|j: int| 0 <= j < i ==> (#[trigger] members@[j]).view().ids.doc == docs[j],
            forall|j: int| i <= j < ms0.len() ==> #[trigger] members@[j] == ms0[j],
            positioned(members@, start as int),
            forall|d: int| min <= d < start ==> !#[trigger] all_match(ms0, d),
            forall|j: int|
                0 <= j < i ==> {
                    &&& (#[trigger] members@[j]).view().ids.doc <= start
                    &&& members@[j].view().ids.docs.contains(members@[j].view().ids.doc)
                },
        decreases members.len() - i,
    {
        let ghost before = members@;
        let ghost was = start as int;
        proof {
            lemma_same_conjunction::<S, FixedBitSet>(ms0, before, Seq::empty(), None);
        }
        start = advance_to(members, i, start)?;
        proof {
            lemma_same_members_trans(ms0, before, members@);
            lemma_advanced_positioned(before, members@, i as int, was);
            assert(positioned(before, start as int));
            assert forall|d: int| min <= d < start implies !#[trigger] all_match(ms0, d) by {
                if d >= was {
                    let m = members@[i as int];
                    assert(m.view() == ms0[i as int].view().at(m.view().ids.doc));
                    assert(ms0[i as int].view().valid());
                    if ms0[i as int].view().hits.contains(d) {
                        assert(m.view().ids.docs.contains(d));
                    }
                    assert(!ms0[i as int].view().hits.contains(d));
                }
            }
        }
        proof {
            let longer = docs.push(start as int);
            assert forall|j: int| 0 <= j < i + 1 implies #[trigger] stands_at(
                ms0,
                min as int,
                longer,
                j,
            ) by {
                if j < i {
                    assert(stands_at(ms0, min as int, docs, j));
                }
            }
            assert forall|j: int| 0 <= j < i + 1 implies (
            #[trigger] members@[j]).view().ids.doc == longer[j] by {
                if j < i {
                    assert(members@[j] == before[j]);
                }
            }
            docs = longer;
            if start >= max {
                assert(is_alignment(ms0, min as int, max as int, docs));
            }
        }
        if start >= max {
            return Ok(start);
        }
        i += 1;
    }
    assert(is_alignment(ms0, min as int, max as int, docs));
    Ok(start)
}

/// One more scorer may end the window earlier.
proof fn lemma_next_run_end<S: Scorer>(
    ms: Seq<S>,
    docs: Seq<int>,
    i: int,
    start: int,
    max: int,
    end: int,
)
    requires
        0 <= i < ms.len(),
        is_least_run_end(ms, docs, i, start, max, end),
    ensures
        is_least_run_end(
            ms,
            docs,
            i + 1,
            start,
            max,
            if covers_half(ms, docs, i, start, max) {
                lesser(run_end(ms, docs, i), end)
            } else {
                end
            },
        ),
{
    if end != max {
        let k = choose|k: int|
            0 <= k < i && #[trigger] covers_half(ms, docs, k, start, max) && end == run_end(
                ms,
                docs,
                k,
            );
        assert(covers_half(ms, docs, k, start, max));
    }
}

/// The positions of the clauses that do not match the whole first half of the
/// window, and the end of the window that all others match.
fn partition<S: Scorer>(members: &Vec<S>, min: i32, max: i32, Ghost(docs): Ghost<Seq<int>>) -> (r:
    Result<(Vec<usize>, i32), LuceneError>)
    requires
        intact(members@),
        0 <= min < max,
        docs.len() == members@.len(),
        forall|i: int|
            0 <= i < members@.len() ==> {
                &&& (#[trigger] members@[i]).view().ids.doc <= min
                &&& members@[i].view().ids.doc == docs[i]
                &&& members@[i].view().ids.docs.contains(members@[i].view().ids.doc)
            },
    ensures
        all_infallible(members@) ==> r is Ok,
        r matches Ok((clauses, end)) ==> {
            &&& min < end <= max
            &&& are_clauses(clauses@, members@.len())
            &&& is_least_run_end(
                members@,
                docs,
                members@.len() as int,
                min as int,
                max as int,
                end as int,
            )
            &&& forall|j: int|
                0 <= j < members@.len() ==> clauses@.contains(j as usize) == !(
                #[trigger] covers_half(members@, docs, j, min as int, max as int))
            &&& forall|j: int|
                0 <= j < members@.len() ==> clauses@.contains(j as usize) || #[trigger] covered(
                    members@,
                    j,
                    min as int,
                    end as int,
                )
        },
{
    let mut clauses: Vec<usize> = Vec::new();
    let mut min_doc_id_run_end: i32 = max;
    let min_run_end_threshold: i32 = unsigned_min(min.wrapping_add(WINDOW_SIZE / 2), max);
    assert(min < min_run_end_threshold <= max);
    let mut i: usize = 0;
    while i < members.len()
        invariant
            intact(members@),
            i <= members@.len(),
            0 <= min < max,
            min < min_run_end_threshold <= max,
            min < min_doc_id_run_end <= max,
            min_run_end_threshold == lesser(min + WINDOW_SIZE / 2, max as int),
            docs.len() == members@.len(),
            is_least_run_end(
                members@,
                docs,
                i as int,
                min as int,
                max as int,
                min_doc_id_run_end as int,
            ),
            forall|j: int|
                0 <= j < i ==> clauses@.contains(j as usize) == !(#[trigger] covers_half(
                    members@,
                    docs,
                    j,
                    min as int,
                    max as int,
                )),
            forall|i: int|
                0 <= i < members@.len() ==> {
                    &&& (#[trigger] members@[i]).view().ids.doc <= min
                    &&& members@[i].view().ids.doc == docs[i]
                    &&& members@[i].view().ids.docs.contains(members@[i].view().ids.doc)
                },
            forall|k: int| 0 <= k < clauses@.len() ==> #[trigger] clauses@[k] < i,
            clauses@.no_duplicates(),
            forall|j: int|
                0 <= j < i ==> clauses@.contains(j as usize) || #[trigger] covered(
                    members@,
                    j,
                    min as int,
                    min_doc_id_run_end as int,
                ),
        decreases members.len() - i,
    {
        let ghost before = clauses@;
        let ghost end0 = min_doc_id_run_end as int;
        assert(members@[i as int].infallible() || !all_infallible(members@));
        let doc_id_run_end: i32 = members[i].hits_run_end()?;
        proof {
            assert(doc_id_run_end == run_end(members@, docs, i as int));
            assert(covers_half(members@, docs, i as int, min as int, max as int) == (doc_id_run_end
                >= min_run_end_threshold));
            assert forall|j: int| 0 <= j < i implies #[trigger] clauses@.push(i).contains(
                j as usize,
            ) == clauses@.contains(j as usize) by {
                lemma_push_contains(clauses@, i, j as usize);
            }
            lemma_push_contains(clauses@, i, i);
            assert(!clauses@.contains(i)) by {
                if clauses@.contains(i) {
                    let k = choose|k: int| 0 <= k < clauses@.len() && clauses@[k] == i;
                    assert(clauses@[k] < i);
                }
            }
            lemma_next_run_end(
                members@,
                docs,
                i as int,
                min as int,
                max as int,
                min_doc_id_run_end as int,
            );
        }
        if members[i].doc_id() > min || doc_id_run_end < min_run_end_threshold {
            clauses.push(i);
            proof {
                assert forall|j: int| 0 <= j < i + 1 implies clauses@.contains(j as usize)
                    || #[trigger] covered(
                    members@,
                    j,
                    min as int,
                    min_doc_id_run_end as int,
                ) by {
                    if j == i {
                        assert(clauses@[before.len() as int] == i);
                    } else if before.contains(j as usize) {
                        let k = choose|k: int| 0 <= k < before.len() && before[k] == j as usize;
                        assert(clauses@[k] == j as usize);
                    } else {
                        assert(covered(members@, j, min as int, end0));
                    }
                }
            }
        } else {
            if doc_id_run_end < min_doc_id_run_end {
                min_doc_id_run_end = doc_id_run_end;
            }
            proof {
                assert forall|j: int| 0 <= j < i + 1 implies clauses@.contains(j as usize)
                    || #[trigger] covered(
                    members@,
                    j,
                    min as int,
                    min_doc_id_run_end as int,
                ) by {
                    if j != i && !clauses@.contains(j as usize) {
                        assert(covered(members@, j, min as int, end0));
                    }
                }
            }
        }
        i += 1;
    }
    Ok((clauses, min_doc_id_run_end))
}

/// The given positions, the cheapest to confirm first.
fn by_match_cost<S: Scorer>(members: &Vec<S>, positions: Vec<usize>) -> (r: Vec<usize>)
    requires
        intact(members@),
        are_clauses(positions@, members@.len()),
    ensures
        are_clauses(r@, members@.len()),
        forall|p: usize| #[trigger] r@.contains(p) <==> positions@.contains(p),
        forall|i: int, j: int|
            0 <= i < j < r@.len() ==> members@[#[trigger] r@[i] as int].view().match_cost
                <= members@[#[trigger] r@[j] as int].view().match_cost,
{
    let n: usize = positions.len();
    let mut keys: Vec<(i64, i64)> = Vec::with_capacity(n);
    let mut i: usize = 0;
    while i < n
        invariant
            intact(members@),
            are_clauses(positions@, members@.len()),
            n == positions@.len(),
            i <= n,
            keys@ =~= Seq::new(
                i as nat,
                |k: int| (members@[positions@[k] as int].view().match_cost as i64, 0i64),
            ),
        decreases n - i,
    {
        let p: usize = positions[i];
        assert(p < members@.len());
        keys.push((members[p].match_cost() as i64, 0));
        i += 1;
    }
    let order: Vec<usize> = stable_order(keys.as_slice());
    let ghost ps = positions@;
    let r: Vec<usize> = reordered(positions, order.as_slice());
    proof {
        assert forall|p: usize| #[trigger] r@.contains(p) <==> ps.contains(p) by {
            if r@.contains(p) {
                let k = choose|k: int| 0 <= k < r@.len() && r@[k] == p;
                assert(ps[order@[k] as int] == p);
            }
            if ps.contains(p) {
                let k = choose|k: int| 0 <= k < ps.len() && ps[k] == p;
                assert(order@.contains(k as usize));
                let q = choose|q: int| 0 <= q < order@.len() && order@[q] == k as usize;
                assert(r@[q] == p);
            }
        }
        assert forall|a: int, b: int| 0 <= a < b < r@.len() implies members@[
        #[trigger] r@[a] as int].view().match_cost <= members@[
        #[trigger] r@[b] as int].view().match_cost by {
            let x = order@[a];
            let y = order@[b];
            assert(keys@[x as int].0 <= keys@[y as int].0);
        }
    }
    r
}

/// The scorers match documents before `end` only, and have not passed any of them.
pub open spec fn none_passed<S: Scorer>(ms: Seq<S>, end: int) -> bool {
    forall|i: int, d: int|
        0 <= i < ms.len() && #[trigger] ms[i].view().ids.docs.contains(d)
            ==> ms[i].view().ids.doc <= d < end
}

proof fn lemma_none_passed<S: Scorer>(ms: Seq<S>, end: int)
    requires
        intact(ms),
        none_passed(ms, end),
    ensures
        forall|d: int| #[trigger] all_match(ms, d) && d >= 0 ==> start_of(ms, 0) <= d,
{
    lemma_start_of(ms, 0);
    assert forall|d: int| #[trigger] all_match(ms, d) && d >= 0 implies start_of(ms, 0) <= d by {
        assert forall|i: int| 0 <= i < ms.len() implies (#[trigger] ms[i]).view().ids.doc <= d by {
            assert(ms[i].view().valid());
            assert(ms[i].view().hits.contains(d));
            assert(ms[i].view().ids.docs.contains(d));
        }
    }
}

/// Scorers in another order match the same documents.
proof fn lemma_reordered<S: Scorer>(ms: Seq<S>, order: Seq<usize>, sorted: Seq<S>)
    requires
        sorted.len() == ms.len(),
        order.len() == ms.len(),
        ms.len() <= usize::MAX,
        forall|i: int| 0 <= i < ms.len() ==> #[trigger] order[i] < ms.len(),
        forall|p: usize| p < ms.len() ==> #[trigger] order.contains(p),
        forall|i: int| 0 <= i < ms.len() ==> #[trigger] sorted[i] == ms[order[i] as int],
    ensures
        forall|d: int| #[trigger] all_match(sorted, d) == all_match(ms, d),
        all_infallible(sorted) == all_infallible(ms),
        forall|end: int| none_passed(ms, end) ==> #[trigger] none_passed(sorted, end),
{
    assert forall|j: int| 0 <= j < ms.len() implies sorted.contains(#[trigger] ms[j]) by {
        assert(order.contains(j as usize));
        let i = choose|i: int| 0 <= i < order.len() && order[i] == j as usize;
        assert(sorted[i] == ms[j]);
    }
    assert forall|d: int| #[trigger] all_match(sorted, d) == all_match(ms, d) by {
        if all_match(sorted, d) {
            assert forall|j: int| 0 <= j < ms.len() implies (
            #[trigger] ms[j]).view().hits.contains(d) by {
                let i = choose|i: int| 0 <= i < sorted.len() && sorted[i] == ms[j];
                assert(sorted[i].view().hits.contains(d));
            }
        }
    }
    if all_infallible(sorted) {
        assert forall|j: int| 0 <= j < ms.len() implies #[trigger] ms[j].infallible() by {
            let i = choose|i: int| 0 <= i < sorted.len() && sorted[i] == ms[j];
            assert(sorted[i].infallible());
        }
    }
    assert forall|end: int| none_passed(ms, end) implies #[trigger] none_passed(sorted, end) by {
        assert forall|i: int, d: int|
            0 <= i < sorted.len() && #[trigger] sorted[i].view().ids.docs.contains(d) implies
            sorted[i].view().ids.doc <= d < end by {
            assert(ms[order[i] as int].view().ids.docs.contains(d));
        }
    }
}

/// Collects the documents that all of several scorers match, window by window.
///
/// Each window is evaluated with bit sets, or document by document where few
/// documents match and their confirmation can be skipped.
pub struct DenseConjunctionBulkScorer<S> {
    max_doc: i32,
    constant_score: i32,
    iterators: Vec<S>,
    window_matches: FixedBitSet,
    clause_window_matches: FixedBitSet,
    next: i32,
}

impl<S: Scorer> DenseConjunctionBulkScorer<S> {
    /// The scorers, in the order of their evaluation.
    pub closed spec fn clauses(&self) -> Seq<S> {
        self.iterators@
    }

    /// The end (exclusive) of the documents.
    pub closed spec fn end(&self) -> i32 {
        self.max_doc
    }

    /// The score of all documents.
    pub closed spec fn score_of_all(&self) -> i32 {
        self.constant_score
    }

    /// There is a scorer, all scorers are intact, and the windows are empty.
    pub closed spec fn wf(&self) -> bool {
        &&& self.iterators@.len() > 0
        &&& intact(self.iterators@)
        &&& all_clear(self.window_matches@)
        &&& all_clear(self.clause_window_matches@)
    }

    /// Creates a bulk scorer over the documents that all `members` match, below
    /// `max_doc`. They all have the same score, an integer that is ordered like it.
    ///
    /// # Errors
    ///
    /// [`LuceneError::IllegalArgument`] if there are no members.
    pub fn new(members: Vec<S>, max_doc: i32, constant_score: i32) -> (r: Result<
        Self,
        LuceneError,
    >)
        requires
            forall|i: int|
                0 <= i < members@.len() ==> (#[trigger] members@[i]).inv()
                    && members@[i].view().valid(),
        ensures
            r is Ok <==> members@.len() > 0,
            r matches Err(e) ==> e.is_illegal_argument(
                "Expected one or more iterators, got 0"@,
            ),
            r matches Ok(scorer) ==> {
                &&& scorer.wf()
                &&& scorer.end() == max_doc
                &&& scorer.score_of_all() == constant_score
                &&& exists|order: Seq<usize>|
                    #![trigger is_stable_order(by_confirmation_and_cost(members@), members@.len() as int, order)]
                    {
                        &&& is_stable_order(
                            by_confirmation_and_cost(members@),
                            members@.len() as int,
                            order,
                        )
                        &&& scorer.clauses() == Seq::new(
                            members@.len(),
                            |i: int| members@[order[i] as int],
                        )
                    }
                &&& scorer.reported_cost() == scorer.clauses()[0].view().cost
                &&& scorer.infallible() <==> all_infallible(members@)
                &&& constant_score >= 0 && max_doc >= 0 && none_passed(members@, max_doc as int) ==> {
                    &&& scorer.inv()
                    &&& scorer.last_next() == 0
                    &&& scorer.remaining() == Map::new(
                        |d: int| all_match(members@, d),
                        |d: int| constant_score,
                    )
                }
            },
    {
        let n: usize = members.len();
        if n == 0 {
            return Err(
                LuceneError::IllegalArgument("Expected one or more iterators, got 0".to_owned()),
            );
        }
        let ghost ms = members@;
        let mut keys: Vec<(i64, i64)> = Vec::with_capacity(n);
        let mut i: usize = 0;
        while i < n
            invariant
                n == members@.len(),
                ms == members@,
                i <= n,
                forall|i: int|
                    0 <= i < members@.len() ==> (#[trigger] members@[i]).inv()
                        && members@[i].view().valid(),
                keys@ =~= by_confirmation_and_cost(ms).take(i as int),
            decreases n - i,
        {
            let phase: i64 = if members[i].has_two_phase() {
                1
            } else {
                0
            };
            keys.push((phase, members[i].cost()));
            i += 1;
        }
        assert(keys@ =~= by_confirmation_and_cost(ms));
        let order: Vec<usize> = stable_order(keys.as_slice());
        let iterators: Vec<S> = reordered(members, order.as_slice());
        assert forall|i: int| 0 <= i < iterators@.len() implies (#[trigger] iterators@[i]).inv()
            && iterators@[i].view().valid() by {
            assert(iterators@[i] == ms[order@[i] as int]);
        }
        let scorer = DenseConjunctionBulkScorer {
            max_doc,
            constant_score,
            iterators,
            window_matches: FixedBitSet::new(WINDOW_SIZE as usize),
            clause_window_matches: FixedBitSet::new(WINDOW_SIZE as usize),
            next: 0,
        };
        proof {
            lemma_reordered(ms, order@, scorer.iterators@);
            if constant_score >= 0 && max_doc >= 0 && none_passed(ms, max_doc as int) {
                lemma_none_passed(scorer.iterators@, max_doc as int);
                assert forall|d: int| #[trigger] all_match(ms, d) implies 0 <= d < max_doc by {
                    assert(ms[0].view().valid());
                    assert(ms[0].view().hits.contains(d));
                    assert(ms[0].view().ids.docs.contains(d));
                }
                assert forall|d: int| #[trigger]
                    scorer.iterators@[0].view().ids.docs.contains(d) implies d < max_doc by {
                }
                assert(scorer.remaining() =~= Map::new(
                    |d: int| all_match(ms, d),
                    |d: int| constant_score,
                ));
            }
        }
        Ok(scorer)
    }

    /// Creates a bulk scorer over the documents that all `filters` match, below
    /// `max_doc`; the same as [`Self::new`].
    ///
    /// # Errors
    ///
    /// [`LuceneError::IllegalArgument`] if there are no filters.
    pub fn of(filters: Vec<S>, max_doc: i32, constant_score: i32) -> (r: Result<
        Self,
        LuceneError,
    >)
        requires
            forall|i: int|
                0 <= i < filters@.len() ==> (#[trigger] filters@[i]).inv()
                    && filters@[i].view().valid(),
        ensures
            r is Ok <==> filters@.len() > 0,
            r matches Err(e) ==> e.is_illegal_argument(
                "Expected one or more iterators, got 0"@,
            ),
            r matches Ok(scorer) ==> {
                &&& scorer.wf()
                &&& scorer.end() == max_doc
                &&& scorer.score_of_all() == constant_score
                &&& exists|order: Seq<usize>|
                    #![trigger is_stable_order(by_confirmation_and_cost(filters@), filters@.len() as int, order)]
                    {
                        &&& is_stable_order(
                            by_confirmation_and_cost(filters@),
                            filters@.len() as int,
                            order,
                        )
                        &&& scorer.clauses() == Seq::new(
                            filters@.len(),
                            |i: int| filters@[order[i] as int],
                        )
                    }
                &&& scorer.reported_cost() == scorer.clauses()[0].view().cost
                &&& scorer.infallible() <==> all_infallible(filters@)
                &&& constant_score >= 0 && max_doc >= 0 && none_passed(filters@, max_doc as int) ==> {
                    &&& scorer.inv()
                    &&& scorer.last_next() == 0
                    &&& scorer.remaining() == Map::new(
                        |d: int| all_match(filters@, d),
                        |d: int| constant_score,
                    )
                }
            },
    {
        Self::new(filters, max_doc, constant_score)
    }

    /// Collects the matches of a window that starts at or after `min`, and returns
    /// the end of the window.
    fn score_window<B: Bits, C: LeafCollector>(
        &mut self,
        collector: &mut C,
        accept_docs: Option<&B>,
        min: i32,
        max: i32,
    ) -> (r: Result<i32, CollectionError>)
        requires
            old(self).wf(),
            0 <= min < max <= old(self).end(),
            positioned(old(self).clauses(), min as int),
        ensures
            all_infallible(old(self).clauses()) && old(collector).infallible() ==> r is Ok,
            final(self).end() == old(self).end(),
            final(self).score_of_all() == old(self).score_of_all(),
            final(collector).infallible() == old(collector).infallible(),
            r matches Ok(next) ==> {
                &&& final(self).wf()
                &&& same_members(old(self).clauses(), final(self).clauses())
                &&& min < next
                &&& positioned(final(self).clauses(), next as int)
                &&& forall|d: int|
                    max <= d < next ==> !#[trigger] all_match(old(self).clauses(), d)
                &&& final(collector).collected() == old(collector).collected() + docs_in(
                    conjunction(old(self).clauses(), accept_docs),
                    min as int,
                    if next < max {
                        next as int
                    } else {
                        max as int
                    },
                )
                &&& all_scored(*old(collector), *final(collector), old(self).score_of_all())
                &&& exists|docs: Seq<int>| #[trigger]
                    is_alignment(old(self).clauses(), min as int, max as int, docs)
                        && is_window_end(
                        old(self).clauses(),
                        docs,
                        max as int,
                        accept_docs is None,
                        next as int,
                    ) && final(collector).ranges() == old(collector).ranges() + ranges_in_one_piece(
                        old(self).clauses(),
                        docs,
                        max as int,
                        accept_docs is None,
                        next as int,
                    )
                &&& fits_window(*old(collector), *final(collector))
            },
            old(collector).infallible() ==> !(r matches Err(
                CollectionError::CollectionTerminated,
            )),
            r is Err ==> ended_early(
                *old(collector),
                *final(collector),
                conjunction(old(self).clauses(), accept_docs),
                min as int,
                max as int,
            ),
    {
        let ghost ms0 = self.iterators@;
        let ghost set = conjunction(ms0, accept_docs);
        let ghost collected0 = collector.collected();
        let ghost ranges0 = collector.ranges();
        proof {
            assert(collected0 + docs_in(set, min as int, min as int) =~= collected0);
            assert(ended_early(*old(collector), *collector, set, min as int, max as int));
            with_score_added(collector.scores(), 0, 0, self.constant_score);
        }
        let start: i32 = failed(advance_all(&mut self.iterators, min, max))?;
        let ghost ms1 = self.iterators@;
        let ghost docs = choose|docs: Seq<int>| #[trigger]
            is_alignment(ms0, min as int, max as int, docs) && docs.last() == start && (start < max
                ==> docs.len() == ms1.len() && forall|i: int|
                0 <= i < docs.len() ==> (#[trigger] ms1[i]).view().ids.doc == docs[i]);
        proof {
            assert(ranges0 + Seq::<(int, int)>::empty() =~= ranges0);
            lemma_same_conjunction(ms0, ms1, Seq::empty(), accept_docs);
            assert forall|d: int| min <= d < start implies !#[trigger] set.contains(d) by {
                assert(!all_match(ms0, d));
            }
            if start >= max {
                docs_in_none(set, min as int, max as int);
                assert(collected0 + docs_in(set, min as int, max as int) =~= collected0);
            }
        }
        if start >= max {
            return Ok(start);
        }
        let (window_clauses, min_doc_id_run_end) = failed(
            partition(&self.iterators, start, max, Ghost(docs)),
        )?;
        proof {
            lemma_same_runs(
                ms0,
                ms1,
                docs,
                start as int,
                max as int,
                min_doc_id_run_end as int,
            );
            assert(all_cover_half(ms1, docs, start as int, max as int) == (window_clauses@.len()
                == 0)) by {
                if window_clauses@.len() > 0 {
                    let p = window_clauses@[0];
                    assert(window_clauses@.contains(p));
                    assert(!covers_half(ms1, docs, p as int, start as int, max as int));
                }
                if !all_cover_half(ms1, docs, start as int, max as int) {
                    let i = choose|i: int|
                        0 <= i < ms1.len() && !#[trigger] covers_half(
                            ms1,
                            docs,
                            i,
                            start as int,
                            max as int,
                        );
                    assert(window_clauses@.contains(i as usize));
                }
            }
        }
        if accept_docs.is_none() && window_clauses.len() == 0 {
            proof {
                let end = min_doc_id_run_end as int;
                assert forall|d: int| start <= d < end implies #[trigger] set.contains(d) by {
                    assert forall|i: int| 0 <= i < ms1.len() implies (
                    #[trigger] ms1[i]).view().hits.contains(d) by {
                        assert(covered(ms1, i, start as int, end));
                    }
                    assert(conjunction(ms1, accept_docs).contains(d));
                }
                lemma_docs_in_all(set, start as int, end);
                docs_in_split(set, min as int, start as int, end);
                docs_in_none(set, min as int, start as int);
                assert(docs_in(set, min as int, end) =~= docs_in(set, start as int, end));
            }
            let collected = collector.collect_range(start, min_doc_id_run_end, self.constant_score);
            proof {
                if collected is Err {
                    let end = choose|end: int|
                        start <= end && (end <= min_doc_id_run_end || end == start)
                            && collector.collected() == collected0 + #[trigger] docs_between(
                            start as int,
                            end,
                        );
                    lemma_docs_in_all(set, start as int, end);
                    docs_in_split(set, min as int, start as int, end);
                    assert(docs_in(set, min as int, end) =~= docs_between(start as int, end));
                    assert(ended_early(*old(collector), *collector, set, min as int, max as int));
                }
            }
            collected?;
            assert(collector.ranges() =~= ranges0 + ranges_in_one_piece(
                ms0,
                docs,
                max as int,
                true,
                min_doc_id_run_end as int,
            ));
            return Ok(min_doc_id_run_end);
        }
        let bitset_window_max: i32 = unsigned_min(
            min_doc_id_run_end,
            WINDOW_SIZE.wrapping_add(start),
        );
        assert(start < bitset_window_max <= min_doc_id_run_end);
        assert(bitset_window_max <= start + WINDOW_SIZE);
        proof {
            assert forall|j: int| 0 <= j < ms1.len() implies window_clauses@.contains(j as usize)
                || #[trigger] covered(ms1, j, start as int, bitset_window_max as int) by {
                if !window_clauses@.contains(j as usize) {
                    assert(covered(ms1, j, start as int, min_doc_id_run_end as int));
                }
            }
            assert(ms1.len() == self.iterators.len());
            lemma_window_clauses(
                ms1,
                window_clauses@,
                accept_docs,
                start as int,
                bitset_window_max as int,
            );
            docs_in_split(set, min as int, start as int, bitset_window_max as int);
            docs_in_none(set, min as int, start as int);
            assert(docs_in(set, min as int, bitset_window_max as int) =~= docs_in(
                set,
                start as int,
                bitset_window_max as int,
            ));
        }
        let mut two_phases: Vec<usize> = Vec::new();
        let mut skippable_two_phase: bool = false;
        let mut k: usize = 0;
        while k < window_clauses.len()
            invariant
                k <= window_clauses@.len(),
                self.iterators@ == ms1,
                intact(ms1),
                are_clauses(window_clauses@, ms1.len()),
                two_phases@.no_duplicates(),
                forall|j: int| 0 <= j < two_phases@.len() ==> #[trigger] two_phases@[j] < ms1.len(),
                forall|p: usize| #[trigger]
                    two_phases@.contains(p) <==> window_clauses@.take(k as int).contains(p)
                        && ms1[p as int].view().two_phase,
            decreases window_clauses.len() - k,
        {
            let p: usize = window_clauses[k];
            let ghost before = two_phases@;
            assert(window_clauses@.take(k + 1) =~= window_clauses@.take(k as int).push(p));
            assert(!window_clauses@.take(k as int).contains(p));
            assert(!before.contains(p));
            if self.iterators[p].has_two_phase() {
                two_phases.push(p);
                if self.iterators[p].cost() < self.max_doc as i64 {
                    skippable_two_phase = true;
                }
            }
            proof {
                let firsts = window_clauses@.take(k as int);
                assert forall|q: usize| #[trigger]
                    two_phases@.contains(q) <==> window_clauses@.take(k + 1).contains(q)
                        && ms1[q as int].view().two_phase by {
                    if ms1[p as int].view().two_phase {
                        lemma_push_contains(before, p, q);
                    }
                    lemma_push_contains(firsts, p, q);
                    assert(before.contains(q) <==> firsts.contains(q)
                        && ms1[q as int].view().two_phase);
                }
            }
            k += 1;
        }
        assert(window_clauses@.take(k as int) =~= window_clauses@);
        let sparse: bool = window_clauses.len() > 0 && self.iterators[window_clauses[0]].cost() <= (
        self.max_doc as i64) / 4;
        let ghost found = clause_conjunction(ms1, window_clauses@, accept_docs);
        let scored: Result<(), CollectionError> = if skippable_two_phase && sparse {
            let two_phases: Vec<usize> = by_match_cost(&self.iterators, two_phases);
            score_window_using_leap_frog(
                collector,
                self.constant_score,
                accept_docs,
                &mut self.iterators,
                window_clauses.as_slice(),
                two_phases.as_slice(),
                start,
                bitset_window_max,
            )
        } else {
            score_window_using_bit_set(
                collector,
                self.constant_score,
                accept_docs,
                &mut self.iterators,
                window_clauses.as_slice(),
                &mut self.window_matches,
                &mut self.clause_window_matches,
                start,
                bitset_window_max,
            )
        };
        proof {
            let (from, to) = (start as int, bitset_window_max as int);
            if ended_early(*old(collector), *collector, found, from, to) {
                let end = choose|end: int|
                    from <= end <= to && collector.collected() == collected0 + #[trigger] docs_in(
                        found,
                        from,
                        end,
                    );
                assert(docs_in(found, from, end) == docs_in(set, from, end));
                docs_in_split(set, min as int, from, end);
                assert(docs_in(set, min as int, end) =~= docs_in(set, from, end));
                assert(ended_early(*old(collector), *collector, set, min as int, max as int));
            }
            lemma_docs_in_len(set, from, to);
        }
        scored?;
        proof {
            lemma_same_members_trans(ms0, ms1, self.iterators@);
            assert(bitset_window_max == lesser(min_doc_id_run_end as int, start + WINDOW_SIZE));
            assert(is_window_end(
                ms0,
                docs,
                max as int,
                accept_docs is None,
                bitset_window_max as int,
            ));
        }
        Ok(bitset_window_max)
    }
}

/// A window holds no more than [`WINDOW_SIZE`] documents, unless they are received in one piece.
pub open spec fn fits_window<C: LeafCollector>(before: C, after: C) -> bool {
    after.collected().len() <= before.collected().len() + WINDOW_SIZE || after.ranges().len()
        == before.ranges().len() + 1
}

/// The window at `k` was begun while a document with `score` could still enter the result, and its
/// documents were collected. It goes from where it starts to where the next one does.
pub open spec fn is_window<C: LeafCollector>(
    states: Seq<C>,
    starts: Seq<int>,
    set: Set<int>,
    score: i32,
    max: int,
    k: int,
) -> bool {
    let before = states[k];
    let after = states[k + 1];
    &&& starts[k] < max
    &&& starts[k] < starts[k + 1]
    &&& before.least_score() <= score
    &&& after.collected() == before.collected() + docs_in(
        set,
        starts[k],
        lesser(starts[k + 1], max),
    )
    &&& all_scored(before, after, score)
    &&& fits_window(before, after)
}

/// `states` are those of a collector before and after each of the windows that begin at `starts`.
pub open spec fn are_windows<C: LeafCollector>(
    states: Seq<C>,
    starts: Seq<int>,
    set: Set<int>,
    score: i32,
    max: int,
) -> bool {
    &&& states.len() == starts.len()
    &&& states.len() > 0
    &&& forall|k: int|
        0 <= k < states.len() - 1 ==> #[trigger] is_window(states, starts, set, score, max, k)
}

proof fn lemma_window_added<C: LeafCollector>(
    states: Seq<C>,
    starts: Seq<int>,
    set: Set<int>,
    score: i32,
    max: int,
    after: C,
    next: int,
)
    requires
        are_windows(states, starts, set, score, max),
        is_window(
            states.push(after),
            starts.push(next),
            set,
            score,
            max,
            states.len() - 1,
        ),
    ensures
        are_windows(states.push(after), starts.push(next), set, score, max),
{
    let (a, b) = (states.push(after), starts.push(next));
    assert forall|k: int| 0 <= k < a.len() - 1 implies #[trigger] is_window(
        a,
        b,
        set,
        score,
        max,
        k,
    ) by {
        if k < states.len() - 1 {
            assert(is_window(states, starts, set, score, max, k));
        }
    }
}

/// The scorers, with the one that the collector is interested in.
pub open spec fn with_competitive<S: Scorer>(ms: Seq<S>, competitive: Option<S>) -> Seq<S> {
    match competitive {
        Some(m) => ms.push(m),
        None => ms,
    }
}

/// The lesser of two bounds.
pub open spec fn lesser(a: int, b: int) -> int {
    if a < b {
        a
    } else {
        b
    }
}

/// The documents of `set` were collected window by window, up to `end`: up to the start of the
/// first window at which no document with `score` can enter the result any more, or else up to
/// `max`.
pub open spec fn collected_until<C: LeafCollector>(
    before: C,
    after: C,
    set: Set<int>,
    score: i32,
    start: int,
    max: int,
    end: int,
) -> bool {
    &&& after.collected() == before.collected() + docs_in(set, start, end)
    &&& all_scored(before, after, score)
    &&& end <= max
    &&& end < max && start < max ==> after.least_score() > score
    &&& exists|states: Seq<C>, starts: Seq<int>| #[trigger]
        are_windows(states, starts, set, score, max) && states[0] == before && states.last()
            == after && start <= starts[0] && end == lesser(starts.last(), max)
}

/// A collector that no document with the score can enter receives nothing.
pub proof fn collection_stops<C: LeafCollector>(
    before: C,
    after: C,
    set: Set<int>,
    score: i32,
    start: int,
    max: int,
    end: int,
)
    requires
        collected_until(before, after, set, score, start, max, end),
        before.least_score() > score,
    ensures
        after == before,
{
    let (states, starts) = choose|states: Seq<C>, starts: Seq<int>| #[trigger]
        are_windows(states, starts, set, score, max) && states[0] == before && states.last()
            == after && start <= starts[0] && end == lesser(starts.last(), max);
    if states.len() > 1 {
        assert(is_window(states, starts, set, score, max, 0));
    }
}

impl<S: Scorer> DenseConjunctionBulkScorer<S> {
    /// Gives the accepted documents of `[min, max)` that all scorers and
    /// `competitive` match to a collector, in increasing order, and returns a document at or
    /// after `max` before which no other one matches.
    ///
    /// Nothing more is collected, and [`NO_MORE_DOCS`] is returned, when a window is to begin and
    /// no document with the score can enter the result any more.
    ///
    /// # Errors
    ///
    /// What a scorer or the collector fails with.
    pub fn collect_docs<B: Bits, C: LeafCollector>(
        &mut self,
        collector: &mut C,
        accept_docs: Option<&B>,
        competitive: Option<S>,
        min: i32,
        max: i32,
    ) -> (r: Result<i32, CollectionError>)
        requires
            old(self).wf(),
            min >= 0,
            competitive matches Some(m) ==> m.inv() && m.view().valid(),
        ensures
            ({
                let ms = with_competitive(old(self).clauses(), competitive);
                let start = start_of(ms, min as int);
                let last = lesser(max as int, old(self).end() as int);
                &&& all_infallible(ms) && old(collector).infallible() ==> r is Ok
                &&& final(collector).infallible() == old(collector).infallible()
                &&& final(self).end() == old(self).end()
                &&& final(self).score_of_all() == old(self).score_of_all()
                &&& r is Err ==> ended_early(
                    *old(collector),
                    *final(collector),
                    conjunction(ms, accept_docs),
                    start,
                    if start < last {
                        last
                    } else {
                        start
                    },
                )
                &&& r matches Ok(next) ==> {
                    &&& final(self).wf()
                    &&& final(self).clauses().len() == old(self).clauses().len()
                    &&& forall|i: int|
                        0 <= i < old(self).clauses().len() ==> (#[trigger] final(
                            self).clauses()[i]).view().valid()
                    &&& forall|i: int|
                        0 <= i < old(self).clauses().len() ==> (#[trigger] final(
                            self).clauses()[i]).view() == old(self).clauses()[i].view().at(
                            final(self).clauses()[i].view().ids.doc,
                        )
                    &&& exists|end: int| #[trigger]
                        collected_until(
                            *old(collector),
                            *final(collector),
                            conjunction(ms, accept_docs),
                            old(self).score_of_all(),
                            start,
                            last,
                            end,
                        ) && if end < last && start < last {
                            next == NO_MORE_DOCS
                        } else {
                            next == if final(self).clauses()[0].view().ids.doc > last {
                                final(self).clauses()[0].view().ids.doc
                            } else if max >= old(self).end() {
                                NO_MORE_DOCS as int
                            } else {
                                max as int
                            }
                        }
                    &&& final(self).clauses()[0].view().ids.doc > last ==> forall|d: int|
                        start <= d && last <= d < final(self).clauses()[0].view().ids.doc
                            ==> !#[trigger] conjunction(ms, accept_docs).contains(d)
                }
            }),
    {
        let ghost ms = with_competitive(self.clauses(), competitive);
        let ghost clauses = self.clauses();
        let n: usize = self.iterators.len();
        let appended: bool = competitive.is_some();
        if let Some(m) = competitive {
            self.iterators.push(m);
        }
        assert(self.iterators@ =~= ms);
        assert(self.score_of_all() == old(self).score_of_all());
        let result = self.score_inner(collector, accept_docs, min, max);
        if appended {
            let ghost after = self.iterators@;
            self.iterators.pop();
            proof {
                if result is Ok {
                    assert(self.iterators@ =~= after.take(n as int));
                    assert forall|i: int| 0 <= i < self.iterators@.len() implies (
                    #[trigger] self.iterators@[i]).inv() && self.iterators@[i].view().valid() by {
                        assert(self.iterators@[i] == after[i]);
                    }
                    assert forall|i: int| 0 <= i < clauses.len() implies (
                    #[trigger] self.iterators@[i]).view() == clauses[i].view().at(
                        self.iterators@[i].view().ids.doc,
                    ) by {
                        assert(self.iterators@[i] == after[i]);
                        assert(clauses[i] == ms[i]);
                    }
                }
            }
        }
        result
    }

    /// Returns the first document at or after `min` that no scorer has passed.
    fn start_from(&self, min: i32) -> (r: i32)
        requires
            self.wf(),
        ensures
            r == start_of(self.clauses(), min as int),
    {
        let ghost ms = self.iterators@;
        let mut start: i32 = min;
        let mut i: usize = 0;
        while i < self.iterators.len()
            invariant
                self.iterators@ == ms,
                intact(ms),
                i <= ms.len(),
                start == start_of(ms.take(i as int), min as int),
            decreases self.iterators.len() - i,
        {
            let doc: i32 = self.iterators[i].doc_id();
            assert(ms.take(i + 1).drop_last() =~= ms.take(i as int));
            if start < doc {
                start = doc;
            }
            i += 1;
        }
        assert(ms.take(i as int) =~= ms);
        start
    }

    fn score_inner<B: Bits, C: LeafCollector>(
        &mut self,
        collector: &mut C,
        accept_docs: Option<&B>,
        min: i32,
        max: i32,
    ) -> (r: Result<i32, CollectionError>)
        requires
            old(self).wf(),
            min >= 0,
        ensures
            ({
                let ms = old(self).clauses();
                let start = start_of(ms, min as int);
                let last = lesser(max as int, old(self).end() as int);
                &&& all_infallible(ms) && old(collector).infallible() ==> r is Ok
                &&& final(collector).infallible() == old(collector).infallible()
                &&& final(self).end() == old(self).end()
                &&& final(self).score_of_all() == old(self).score_of_all()
                &&& r is Err ==> ended_early(
                    *old(collector),
                    *final(collector),
                    conjunction(ms, accept_docs),
                    start,
                    if start < last {
                        last
                    } else {
                        start
                    },
                )
                &&& r matches Ok(next) ==> {
                    &&& final(self).wf()
                    &&& same_members(ms, final(self).clauses())
                    &&& exists|end: int| #[trigger]
                        collected_until(
                            *old(collector),
                            *final(collector),
                            conjunction(ms, accept_docs),
                            old(self).score_of_all(),
                            start,
                            last,
                            end,
                        ) && if end < last && start < last {
                            next == NO_MORE_DOCS
                        } else {
                            next == if final(self).clauses()[0].view().ids.doc > last {
                                final(self).clauses()[0].view().ids.doc
                            } else if max >= old(self).end() {
                                NO_MORE_DOCS as int
                            } else {
                                max as int
                            }
                        }
                    &&& final(self).clauses()[0].view().ids.doc > last ==> forall|d: int|
                        start <= d && last <= d < final(self).clauses()[0].view().ids.doc
                            ==> !#[trigger] conjunction(ms, accept_docs).contains(d)
                }
            }),
    {
        let ghost ms0 = self.iterators@;
        let ghost set = conjunction(ms0, accept_docs);
        let ghost collected0 = collector.collected();
        let ghost scores0 = collector.scores();
        let mut start: i32 = self.start_from(min);
        let ghost start0 = start as int;
        let last: i32 = if max < self.max_doc {
            max
        } else {
            self.max_doc
        };
        proof {
            lemma_start_of(ms0, min as int);
            assert(positioned(ms0, start0));
            assert(collected0 + docs_in(set, start0, start0) =~= collected0);
            assert(ended_early(
                *old(collector),
                *collector,
                set,
                start0,
                if start0 < last {
                    last as int
                } else {
                    start0
                },
            ));
        }
        let lead_doc: i32 = failed(advance_to(&mut self.iterators, 0, start))?;
        proof {
            lemma_advanced_positioned(ms0, self.iterators@, 0, start0);
            lemma_same_conjunction(ms0, self.iterators@, Seq::empty(), accept_docs);
            assert forall|d: int| start0 <= d < lead_doc implies !#[trigger] set.contains(d) by {
                if set.contains(d) {
                    assert(ms0[0].view().hits.contains(d));
                    assert(ms0[0].view().valid());
                    assert(self.iterators@[0].view().ids.docs.contains(d));
                }
            }
        }
        start = lead_doc;
        proof {
            assert(positioned(self.iterators@, start as int));
            let from = lesser(start as int, last as int);
            docs_in_none(set, start0, from);
            assert(collected0 + docs_in(set, start0, from) =~= collected0);
            with_score_added(scores0, 0, 0, self.constant_score);
        }
        let ghost mut states: Seq<C> = seq![*collector];
        let ghost mut starts: Seq<int> = seq![start as int];
        while start < last
            invariant
                are_windows(states, starts, set, self.constant_score, last as int),
                states[0] == *old(collector),
                states.last() == *collector,
                start0 <= starts[0],
                starts.last() == start,
                self.wf(),
                self.end() == old(self).end(),
                self.score_of_all() == old(self).score_of_all(),
                scores0 == old(collector).scores(),
                collector.scores() == with_score(
                    scores0,
                    collector.collected().len() - collected0.len(),
                    self.constant_score,
                ),
                last <= self.end(),
                last == lesser(max as int, old(self).end() as int),
                ms0 == old(self).clauses(),
                intact(ms0),
                same_members(ms0, self.iterators@),
                set == conjunction(ms0, accept_docs),
                0 <= start0 <= start,
                start0 == start_of(ms0, min as int),
                positioned(self.iterators@, start as int),
                forall|d: int|
                    start0 <= d && last <= d < start ==> !#[trigger] set.contains(d),
                collected0 == old(collector).collected(),
                collector.infallible() == old(collector).infallible(),
                collector.collected() == collected0 + docs_in(
                    set,
                    start0,
                    lesser(start as int, last as int),
                ),
            decreases NO_MORE_DOCS - start,
        {
            let ghost before = self.iterators@;
            if collector.min_competitive_score() > self.constant_score {
                proof {
                    lemma_lead_gap(ms0, self.iterators@, accept_docs, start as int);
                    assert(collected_until(
                        *old(collector),
                        *collector,
                        set,
                        self.constant_score,
                        start0,
                        last as int,
                        start as int,
                    ));
                }
                return Ok(NO_MORE_DOCS);
            }
            proof {
                lemma_same_conjunction(ms0, before, Seq::empty(), accept_docs);
            }
            let ghost was = start as int;
            let ghost m = collector.collected().len();
            let ghost so_far = *collector;
            let scored = self.score_window(collector, accept_docs, start, last);
            proof {
                if scored is Err {
                    let end = choose|end: int|
                        was <= end <= last && collector.collected() == so_far.collected()
                            + #[trigger] docs_in(set, was, end);
                    docs_in_split(set, start0, was, end);
                    assert(collector.collected() =~= collected0 + docs_in(set, start0, end));
                    assert(ended_early(*old(collector), *collector, set, start0, last as int));
                }
            }
            start = scored?;
            proof {
                assert forall|d: int| last <= d < start implies !#[trigger] set.contains(d) by {
                    assert(!all_match(before, d));
                    if set.contains(d) {
                        assert(conjunction(before, accept_docs).contains(d));
                    }
                }
                with_score_added(
                    scores0,
                    m - collected0.len(),
                    collector.collected().len() - m,
                    self.constant_score,
                );
                lemma_same_members_trans(ms0, before, self.iterators@);
                let to = lesser(start as int, last as int);
                docs_in_split(set, start0, was, to);
                assert(collector.collected() =~= collected0 + docs_in(set, start0, to));
                lemma_window_added(
                    states,
                    starts,
                    set,
                    self.constant_score,
                    last as int,
                    *collector,
                    start as int,
                );
                states = states.push(*collector);
                starts = starts.push(start as int);
            }
        }
        proof {
            lemma_lead_gap(ms0, self.iterators@, accept_docs, start as int);
            assert(collected_until(
                *old(collector),
                *collector,
                set,
                self.constant_score,
                start0,
                last as int,
                last as int,
            ));
        }
        let lead_doc: i32 = self.iterators[0].doc_id();
        if lead_doc > last {
            Ok(lead_doc)
        } else if last >= self.max_doc {
            Ok(NO_MORE_DOCS)
        } else {
            Ok(last)
        }
    }
}

/// Each document with `score`.
pub open spec fn with_constant_score(docs: Seq<int>, score: i32) -> Seq<(int, i32)> {
    docs.map_values(|d: int| (d, score))
}

/// The documents that are numbered so.
spec fn as_docs(docs: Seq<i32>) -> Seq<int> {
    docs.map_values(|d: i32| d as int)
}

/// The first documents of a range are those of a range that ends earlier.
proof fn lemma_docs_in_prefix(set: Set<int>, from: int, to: int, k: int) -> (end: int)
    requires
        from <= to,
        0 <= k <= docs_in(set, from, to).len(),
    ensures
        from <= end <= to,
        docs_in(set, from, to).take(k) == docs_in(set, from, end),
    decreases to - from,
{
    let docs = docs_in(set, from, to);
    if k == docs.len() {
        assert(docs.take(k) =~= docs);
        to
    } else {
        let end = lemma_docs_in_prefix(set, from, to - 1, k);
        assert(docs.take(k) =~= docs_in(set, from, to - 1).take(k));
        end
    }
}

/// What was reported up to `done` of documents that all have the same score is what may be reported
/// up to `to`.
proof fn lemma_constant_report<B: Bits>(
    all: Map<int, i32>,
    accept_docs: Option<&B>,
    set: Set<int>,
    score: i32,
    min: int,
    from: int,
    done: int,
    to: int,
    floor: i32,
) -> (reported: Map<int, i32>)
    requires
        score >= 0,
        min <= from,
        done <= to || done <= from,
        forall|d: int| #[trigger] set.contains(d) ==> accepts(accept_docs, d),
        forall|d: int| #[trigger] all.dom().contains(d) ==> all[d] == score,
        forall|d: int| #[trigger] set.contains(d) && from <= d < done ==> all.dom().contains(d),
        score >= floor ==> forall|d: int| #[trigger]
            all.dom().contains(d) && accepts(accept_docs, d) && min <= d < to ==> set.contains(d)
                && from <= d < done,
    ensures
        reports(all, accept_docs, min, to, floor, reported),
        entries_in(reported, min, to) == with_constant_score(docs_in(set, from, done), score),
        is_report(
            all,
            accept_docs,
            min,
            to,
            floor,
            with_constant_score(docs_in(set, from, done), score),
        ),
{
    let reported = Map::new(|d: int| set.contains(d) && from <= d < done, |d: int| score);
    if done <= from {
        docs_in_none(reported.dom(), min, to);
        docs_in_none(set, from, done);
    } else {
        docs_in_split(reported.dom(), min, from, to);
        docs_in_split(reported.dom(), from, done, to);
        docs_in_none(reported.dom(), min, from);
        docs_in_none(reported.dom(), done, to);
        docs_in_same(reported.dom(), set, from, done);
    }
    docs_in_are_exact(reported.dom(), min, to);
    assert(docs_in(reported.dom(), min, to) =~= docs_in(set, from, done));
    assert(entries_in(reported, min, to) =~= with_constant_score(
        docs_in(set, from, done),
        score,
    ));
    assert(reports(all, accept_docs, min, to, floor, reported));
    reported
}

/// What was reported up to `was`, and then the first `k` documents up to `to`, is what may be
/// reported so far.
proof fn lemma_prefix_reported<B: Bits>(
    all: Map<int, i32>,
    accept_docs: Option<&B>,
    set: Set<int>,
    score: i32,
    min: int,
    from: int,
    was: int,
    to: int,
    max: int,
    k: int,
    floor: i32,
)
    requires
        score >= 0,
        min <= from <= was <= to <= max,
        0 <= k <= docs_in(set, was, to).len(),
        forall|d: int| #[trigger] set.contains(d) ==> accepts(accept_docs, d),
        forall|d: int| #[trigger] all.dom().contains(d) ==> all[d] == score,
        forall|d: int| #[trigger] set.contains(d) && from <= d < to ==> all.dom().contains(d),
        forall|d: int| #[trigger]
            all.dom().contains(d) && accepts(accept_docs, d) && d >= min ==> set.contains(d) && from
                <= d,
    ensures
        is_report_so_far(
            all,
            accept_docs,
            min,
            max,
            floor,
            with_constant_score(
                docs_in(set, from, was) + docs_in(set, was, to).take(k),
                score,
            ),
        ),
{
    let end = lemma_docs_in_prefix(set, was, to, k);
    docs_in_split(set, from, was, end);
    lemma_constant_report(all, accept_docs, set, score, min, from, end, end, floor);
}

/// What matches from `last` on was not passed.
proof fn lemma_rest_of_conjunction<S: Scorer>(
    ms0: Seq<S>,
    ms: Seq<S>,
    start0: int,
    start: int,
    last: int,
)
    requires
        intact(ms),
        same_members(ms0, ms),
        ms0.len() > 0,
        positioned(ms, start),
        forall|d: int| start0 <= d && last <= d < start ==> !#[trigger] all_match(ms0, d),
    ensures
        forall|d: int| #[trigger] all_match(ms0, d) == all_match(ms, d),
        forall|d: int| #[trigger]
            all_match(ms0, d) && start0 <= d && last <= d ==> start_of(ms, 0) <= d
                && ms[0].view().ids.doc <= d,
{
    assert forall|d: int| #[trigger] all_match(ms0, d) == all_match(ms, d) by {
        assert forall|i: int| 0 <= i < ms.len() implies (#[trigger] ms[i]).view().hits
            == ms0[i].view().hits by {
        }
        if all_match(ms, d) {
            assert forall|i: int| 0 <= i < ms0.len() implies (
            #[trigger] ms0[i]).view().hits.contains(d) by {
                assert(ms[i].view().hits.contains(d));
            }
        }
    }
    assert forall|d: int| #[trigger]
        all_match(ms0, d) && start0 <= d && last <= d implies start_of(ms, 0) <= d
        && ms[0].view().ids.doc <= d by {
        lemma_start_of(ms, 0);
        assert(all_match(ms, d));
        assert forall|i: int| 0 <= i < ms.len() implies (#[trigger] ms[i]).view().ids.doc <= d by {
            assert(ms[i].view().valid());
            assert(ms[i].view().hits.contains(d));
            assert(ms[i].view().ids.docs.contains(d));
        }
        assert(ms[0].view().ids.doc <= d);
        assert(ms[0].view().ids.docs.contains(d));
    }
}

/// Reports documents that all have the same score.
fn report_docs<C: ScoreCollector>(collector: &mut C, docs: &[i32], score: i32) -> (r: Result<
    (),
    CollectionError,
>)
    requires
        old(collector).inv(),
        forall|i: int| 0 <= i < docs@.len() ==> old(collector).takes(#[trigger] docs@[i] as int),
    ensures
        old(collector).infallible() ==> r is Ok,
        final(collector).infallible() == old(collector).infallible(),
        final(collector).steady() == old(collector).steady(),
        final(collector).floor() >= old(collector).floor(),
        old(collector).steady() ==> final(collector).floor() == old(collector).floor(),
        forall|d: int| #[trigger] final(collector).takes(d) == old(collector).takes(d),
        r matches Err(CollectionError::CollectionTerminated) ==> final(collector).ended(),
        r is Ok ==> final(collector).ended() == old(collector).ended(),
        r is Ok ==> final(collector).inv() && final(collector).collected() == old(
            collector).collected() + with_constant_score(as_docs(docs@), score),
        r is Err ==> exists|k: int|
            0 <= k <= docs@.len() && final(collector).collected() == old(collector).collected()
                + with_constant_score(#[trigger] as_docs(docs@).take(k), score),
{
    let ghost all = as_docs(docs@);
    let ghost collected0 = collector.collected();
    let mut i: usize = 0;
    assert(collected0 + with_constant_score(all.take(0), score) =~= collected0);
    while i < docs.len()
        invariant
            i <= docs@.len(),
            all == as_docs(docs@),
            collected0 == old(collector).collected(),
            forall|i: int|
                0 <= i < docs@.len() ==> old(collector).takes(#[trigger] docs@[i] as int),
            collector.inv(),
            collector.infallible() == old(collector).infallible(),
            collector.steady() == old(collector).steady(),
            collector.ended() == old(collector).ended(),
            collector.floor() >= old(collector).floor(),
            old(collector).steady() ==> collector.floor() == old(collector).floor(),
            forall|d: int| #[trigger] collector.takes(d) == old(collector).takes(d),
            collector.collected() == collected0 + with_constant_score(all.take(i as int), score),
        decreases docs.len() - i,
    {
        let doc: i32 = docs[i];
        proof {
            assert(old(collector).takes(docs@[i as int] as int));
            assert(collector.collected().push((doc as int, score)) =~= collected0
                + with_constant_score(all.take(i + 1), score));
            assert(collector.collected() == collected0 + with_constant_score(
                all.take(i as int),
                score,
            ));
        }
        collector.collect(doc, score)?;
        i += 1;
    }
    assert(all.take(i as int) =~= all);
    Ok(())
}

impl<S: Scorer> BulkScorer for DenseConjunctionBulkScorer<S> {
    closed spec fn remaining(&self) -> Map<int, i32> {
        Map::new(
            |d: int| self.next <= d < self.max_doc && all_match(self.iterators@, d),
            |d: int| self.constant_score,
        )
    }

    closed spec fn inv(&self) -> bool {
        &&& self.wf()
        &&& self.constant_score >= 0
        &&& self.next >= 0
        &&& self.max_doc >= 0
        &&& forall|d: int| #[trigger]
            self.iterators@[0].view().ids.docs.contains(d) ==> d < self.max_doc
        &&& forall|d: int| #[trigger]
            all_match(self.iterators@, d) && d >= self.next ==> start_of(self.iterators@, 0) <= d
    }

    closed spec fn infallible(&self) -> bool {
        all_infallible(self.iterators@)
    }

    closed spec fn reported_cost(&self) -> i64 {
        self.iterators@[0].view().cost
    }

    closed spec fn last_next(&self) -> int {
        self.next as int
    }

    /// Returns the cost of the first scorer.
    fn cost(&self) -> (r: i64) {
        self.iterators[0].cost()
    }

    /// Reports the accepted documents of `[min, max)` that all scorers match, window by window, and
    /// returns a document at or after `max` before which no other one matches.
    ///
    /// Nothing more is reported, and [`NO_MORE_DOCS`] is returned, when a window is to begin and
    /// the collector asks for a greater score.
    ///
    /// # Errors
    ///
    /// What a scorer or the collector fails with.
    fn score<C: ScoreCollector, B: Bits>(
        &mut self,
        collector: &mut C,
        accept_docs: Option<&B>,
        min: i32,
        max: i32,
    ) -> (r: Result<i32, CollectionError>)
        ensures
            r is Ok && old(collector).floor() > old(self).score_of_all() ==> final(
                collector).collected() == old(collector).collected(),
    {
        let ghost ms0 = self.iterators@;
        let ghost all = self.remaining();
        let ghost set = conjunction(ms0, accept_docs);
        let ghost collected0 = collector.collected();
        let ghost score = self.constant_score;
        let from: i32 = if self.next < min {
            min
        } else {
            self.next
        };
        let mut start: i32 = self.start_from(from);
        let ghost start0 = start as int;
        let last: i32 = if max < self.max_doc {
            max
        } else {
            self.max_doc
        };
        proof {
            lemma_start_of(ms0, from as int);
            lemma_start_of(ms0, 0);
            assert(positioned(ms0, start0));
            assert forall|d: int| #[trigger] set.contains(d) && from <= d < last implies {
                &&& all.dom().contains(d)
                &&& start0 <= d
            } by {
                assert(all_match(ms0, d));
            }
            assert forall|d: int| #[trigger]
                all.dom().contains(d) && accepts(accept_docs, d) && d >= min implies set.contains(d)
                && from <= d by {
                assert(all_match(ms0, d));
            }
            docs_in_none(set, from as int, min as int);
            assert(collected0 + with_constant_score(docs_in(set, from as int, min as int), score)
                =~= collected0);
            lemma_constant_report(
                all,
                accept_docs,
                set,
                score,
                min as int,
                from as int,
                min as int,
                min as int,
                collector.floor(),
            );
            assert(is_report_so_far(
                all,
                accept_docs,
                min as int,
                max as int,
                collector.floor(),
                with_constant_score(docs_in(set, from as int, min as int), score),
            ));
        }
        let lead_doc: i32 = failed(advance_to(&mut self.iterators, 0, start))?;
        proof {
            lemma_advanced_positioned(ms0, self.iterators@, 0, start0);
            lemma_same_conjunction(ms0, self.iterators@, Seq::empty(), accept_docs);
            assert forall|d: int| start0 <= d < lead_doc implies !#[trigger] all_match(ms0, d) by {
                if all_match(ms0, d) {
                    assert(ms0[0].view().hits.contains(d));
                    assert(ms0[0].view().valid());
                    assert(self.iterators@[0].view().ids.docs.contains(d));
                }
            }
        }
        start = lead_doc;
        proof {
            assert forall|d: int| from <= d && d < last && d < start implies !#[trigger] set.contains(
                d,
            ) by {
                if set.contains(d) {
                    assert(all_match(ms0, d));
                }
            }
            docs_in_none(set, from as int, lesser(start as int, last as int));
            assert(collected0 + with_constant_score(
                docs_in(set, from as int, lesser(start as int, last as int)),
                score,
            ) =~= collected0);
        }
        while start < last
            invariant
                self.wf(),
                self.max_doc == old(self).max_doc,
                self.constant_score == score,
                old(self).inv(),
                score == old(self).constant_score,
                forall|d: int| #[trigger] all.dom().contains(d) ==> all[d] == score,
                last == lesser(max as int, self.max_doc as int),
                0 <= min <= max,
                min <= from,
                from <= start0 <= start,
                ms0 == old(self).iterators@,
                intact(ms0),
                same_members(ms0, self.iterators@),
                all == old(self).remaining(),
                set == conjunction(ms0, accept_docs),
                collected0 == old(collector).collected(),
                positioned(self.iterators@, start as int),
                start0 >= last ==> self.iterators@[0].view().ids.doc >= start0,
                old(collector).floor() > score ==> collector.collected() == collected0,
                forall|d: int|
                    start0 <= d && last <= d < start ==> !#[trigger] all_match(ms0, d),
                forall|d: int| #[trigger]
                    set.contains(d) && from <= d < last ==> all.dom().contains(d) && start0 <= d,
                forall|d: int| #[trigger]
                    all.dom().contains(d) && accepts(accept_docs, d) && d >= min ==> set.contains(d)
                        && from <= d,
                forall|d: int| #[trigger]
                    all.dom().contains(d) && min <= d < max ==> old(collector).takes(d),
                collector.inv(),
                collector.infallible() == old(collector).infallible(),
                collector.steady() == old(collector).steady(),
                collector.ended() == old(collector).ended(),
                collector.floor() >= old(collector).floor(),
                old(collector).steady() ==> collector.floor() == old(collector).floor(),
                forall|d: int| #[trigger] collector.takes(d) == old(collector).takes(d),
                collector.collected() == collected0 + with_constant_score(
                    docs_in(set, from as int, lesser(start as int, last as int)),
                    score,
                ),
            decreases NO_MORE_DOCS - start,
        {
            let ghost was = start as int;
            let ghost before = self.iterators@;
            if collector.min_competitive_score() > self.constant_score {
                self.next = NO_MORE_DOCS;
                proof {
                    lemma_constant_report(
                        all,
                        accept_docs,
                        set,
                        score,
                        min as int,
                        from as int,
                        was,
                        max as int,
                        collector.floor(),
                    );
                    lemma_same_conjunction(ms0, self.iterators@, Seq::empty(), accept_docs);
                    assert forall|d: int| #[trigger]
                        all_match(self.iterators@, d) implies d < self.next by {
                        assert(self.iterators@[0].view().hits.contains(d));
                        assert(self.iterators@[0].view().valid());
                    }
                }
                return Ok(NO_MORE_DOCS);
            }
            proof {
                lemma_same_conjunction(ms0, before, Seq::empty(), accept_docs);
            }
            let mut window = DocCollector::new(self.constant_score);
            let scored = self.score_window(&mut window, accept_docs, start, last);
            let ghost docs = window.collected();
            let ghost to = if scored is Ok {
                lesser(scored->Ok_0 as int, last as int)
            } else {
                choose|to: int| was <= to <= last && docs == docs_in(set, was, to)
            };
            proof {
                if scored is Err {
                    let end = choose|end: int|
                        was <= end <= last && docs == Seq::<int>::empty() + #[trigger] docs_in(
                            set,
                            was,
                            end,
                        );
                    assert(docs =~= docs_in(set, was, end));
                }
                assert(docs =~= docs_in(set, was, to));
                docs_in_are_exact(set, was, to);
            }
            let found = window.docs();
            assert(as_docs(found@) =~= docs);
            assert forall|i: int| 0 <= i < found@.len() implies collector.takes(
                #[trigger] found@[i] as int,
            ) by {
                assert(docs[i] == found@[i]);
                assert(set.contains(docs[i]));
                assert(all.dom().contains(docs[i]));
            }
            let ghost reported = collector.collected();
            let done = report_docs(collector, found, self.constant_score);
            proof {
                let firsts = docs_in(set, from as int, was);
                docs_in_split(set, from as int, was, to);
                let k = if done is Ok {
                    docs.len() as int
                } else {
                    choose|k: int|
                        0 <= k <= docs.len() && collector.collected() == reported
                            + with_constant_score(#[trigger] docs.take(k), score)
                };
                if done is Ok {
                    assert(docs.take(k) =~= docs);
                    assert(firsts + docs.take(k) == docs_in(set, from as int, to));
                }
                assert(collector.collected() =~= collected0 + with_constant_score(
                    firsts + docs.take(k),
                    score,
                ));
                lemma_prefix_reported(
                    all,
                    accept_docs,
                    set,
                    score,
                    min as int,
                    from as int,
                    was,
                    to,
                    max as int,
                    k,
                    collector.floor(),
                );
            }
            done?;
            start = scored?;
            proof {
                lemma_same_members_trans(ms0, before, self.iterators@);
                assert forall|d: int| last <= d < start implies !#[trigger] all_match(ms0, d) by {
                    assert(!all_match(before, d));
                    if all_match(ms0, d) {
                        assert forall|i: int| 0 <= i < before.len() implies (
                        #[trigger] before[i]).view().hits.contains(d) by {
                            assert(ms0[i].view().hits.contains(d));
                        }
                    }
                }
            }
        }
        let lead_doc: i32 = self.iterators[0].doc_id();
        let next: i32 = if lead_doc > last {
            lead_doc
        } else if last >= self.max_doc {
            NO_MORE_DOCS
        } else {
            last
        };
        self.next = next;
        proof {
            let floor = collector.floor();
            let done = lesser(start as int, last as int);
            assert(done == last);
            lemma_same_conjunction(ms0, self.iterators@, Seq::empty(), accept_docs);
            assert(self.iterators@[0].view().valid());
            assert(self.iterators@[0].view() == ms0[0].view().at(
                self.iterators@[0].view().ids.doc,
            ));
            lemma_constant_report(
                all,
                accept_docs,
                set,
                score,
                min as int,
                from as int,
                last as int,
                max as int,
                floor,
            );
            lemma_rest_of_conjunction(ms0, self.iterators@, start0, start as int, last as int);
            assert(next >= from);
            assert forall|d: int| #[trigger]
                all_match(self.iterators@, d) && d >= next implies start_of(self.iterators@, 0)
                <= d by {
                assert(all_match(ms0, d));
            }
            assert(carried(
                all,
                self.remaining(),
                accept_docs,
                max as int,
                next as int,
                floor,
            )) by {
                assert forall|d: int| #[trigger]
                    self.remaining().dom().contains(d) implies all.dom().contains(d) by {
                    assert(all_match(self.iterators@, d));
                }
                assert forall|d: int| #[trigger]
                    all.dom().contains(d) && d >= max implies self.remaining().dom().contains(d) by {
                    assert(all_match(ms0, d));
                }
            }
        }
        Ok(next)
    }
}

/// No document before that of the first scorer matches.
proof fn lemma_lead_gap<S: Scorer, B: Bits>(
    ms0: Seq<S>,
    ms: Seq<S>,
    accept_docs: Option<&B>,
    from: int,
)
    requires
        intact(ms0),
        same_members(ms0, ms),
        ms0.len() > 0,
        positioned(ms, from),
    ensures
        forall|d: int|
            from <= d < ms[0].view().ids.doc ==> !#[trigger] conjunction(
                ms0,
                accept_docs,
            ).contains(d),
{
    assert forall|d: int| from <= d < ms[0].view().ids.doc implies !#[trigger] conjunction(
        ms0,
        accept_docs,
    ).contains(d) by {
        if ms0[0].view().hits.contains(d) {
            assert(ms0[0].view().valid());
            assert(ms[0].view().ids.docs.contains(d));
        }
    }
}

proof fn lemma_push_contains(s: Seq<usize>, p: usize, q: usize)
    ensures
        s.push(p).contains(q) <==> s.contains(q) || q == p,
{
    if s.contains(q) {
        let k = choose|k: int| 0 <= k < s.len() && s[k] == q;
        assert(s.push(p)[k] == q);
    }
    if q == p {
        assert(s.push(p)[s.len() as int] == q);
    }
}

/// A document is in a conjunction exactly when it is accepted, which all documents are where no
/// bits are given and those with a set bit are otherwise, and every scorer matches it.
pub proof fn conjunctions_need_every_scorer<S: Scorer, B: Bits>(
    ms: Seq<S>,
    accept_docs: Option<&B>,
    d: int,
)
    ensures
        conjunction(ms, accept_docs).contains(d) <==> {
            &&& accept_docs matches Some(bits) ==> 0 <= d < bits.bit_seq().len()
                && bits.bit_seq()[d]
            &&& forall|i: int| 0 <= i < ms.len() ==> (#[trigger] ms[i]).view().hits.contains(d)
        },
        accepts(accept_docs, d) <==> match accept_docs {
            Some(bits) => 0 <= d < bits.bit_seq().len() && bits.bit_seq()[d],
            None => true,
        },
{
}

impl<S: Scorer> DenseConjunctionBulkScorer<S> {
    /// A scorer of several iterators that have not begun reports the documents that all of them
    /// match, and no others, each with the same score.
    pub proof fn scorers_report_what_all_match(
        members: Vec<S>,
        max_doc: i32,
        constant_score: i32,
        r: Self,
        d: int,
    )
        requires
            call_ensures(
                DenseConjunctionBulkScorer::<S>::new,
                (members, max_doc, constant_score),
                Ok(r),
            ),
            constant_score >= 0,
            max_doc >= 0,
            forall|i: int, d: int|
                0 <= i < members@.len() && #[trigger] members@[i].view().ids.docs.contains(d)
                    ==> members@[i].view().ids.doc <= d < max_doc,
        ensures
            r.remaining().dom().contains(d) <==> forall|i: int|
                0 <= i < members@.len() ==> (#[trigger] members@[i]).view().hits.contains(d),
            r.remaining().dom().contains(d) ==> r.remaining()[d] == constant_score,
    {
        assert(none_passed(members@, max_doc as int));
    }
}

/// What is collected from `min` on, before `max`, are the accepted documents that all scorers
/// match, in increasing order and each with the score; unless a greater score is asked for at the
/// end, every one of them is collected. No scorer has passed one of its documents from `min` on.
pub proof fn every_match_is_collected<S: Scorer, B: Bits, C: LeafCollector>(
    ms: Seq<S>,
    accept_docs: Option<&B>,
    before: C,
    after: C,
    score: i32,
    min: int,
    max: int,
    end: int,
) -> (added: Seq<int>)
    requires
        collected_until(
            before,
            after,
            conjunction(ms, accept_docs),
            score,
            start_of(ms, min),
            max,
            end,
        ),
        forall|i: int| 0 <= i < ms.len() ==> (#[trigger] ms[i]).view().valid(),
        forall|i: int, d: int|
            0 <= i < ms.len() && #[trigger] ms[i].view().ids.docs.contains(d) && d >= min ==> d
                >= ms[i].view().ids.doc,
    ensures
        after.collected() == before.collected() + added,
        after.scores() == before.scores() + Seq::new(added.len(), |i: int| score),
        forall|k: int|
            0 <= k < added.len() ==> {
                let d = #[trigger] added[k];
                &&& min <= d < max
                &&& accept_docs matches Some(bits) ==> 0 <= d < bits.bit_seq().len()
                    && bits.bit_seq()[d]
                &&& forall|i: int| 0 <= i < ms.len() ==> (#[trigger] ms[i]).view().hits.contains(d)
            },
        forall|j: int, k: int|
            0 <= j < k < added.len() ==> #[trigger] added[j] < #[trigger] added[k],
        after.least_score() <= score ==> forall|d: int|
            min <= d < max && (accept_docs matches Some(bits) ==> 0 <= d < bits.bit_seq().len()
                && bits.bit_seq()[d]) && (forall|i: int|
                0 <= i < ms.len() ==> (#[trigger] ms[i]).view().hits.contains(d))
                ==> #[trigger] added.contains(d),
{
    let set = conjunction(ms, accept_docs);
    let start = start_of(ms, min);
    let added = docs_in(set, start, end);
    docs_in_are_exact(set, start, end);
    lemma_start_of(ms, min);
    assert(positioned(ms, min));
    start_loses_no_document(ms, accept_docs, min, max);
    docs_in_are_exact(set, min, max);
    docs_in_are_exact(set, start, max);
    assert forall|k: int| 0 <= k < added.len() implies {
        let d = #[trigger] added[k];
        &&& min <= d < max
        &&& accept_docs matches Some(bits) ==> 0 <= d < bits.bit_seq().len() && bits.bit_seq()[d]
        &&& forall|i: int| 0 <= i < ms.len() ==> (#[trigger] ms[i]).view().hits.contains(d)
    } by {
        assert(set.contains(added[k]));
    }
    if after.least_score() <= score {
        assert forall|d: int|
            min <= d < max && (accept_docs matches Some(bits) ==> 0 <= d < bits.bit_seq().len()
                && bits.bit_seq()[d]) && (forall|i: int|
                0 <= i < ms.len() ==> (#[trigger] ms[i]).view().hits.contains(
                    d,
                )) implies #[trigger] added.contains(d) by {
            assert(set.contains(d));
            assert(docs_in(set, min, max).contains(d));
            assert(docs_in(set, start, max).contains(d));
            let k = choose|k: int|
                0 <= k < docs_in(set, start, max).len() && docs_in(set, start, max)[k] == d;
            assert(start <= docs_in(set, start, max)[k]);
            assert(start < max);
            assert(end == max);
        }
    }
    added
}

} // verus!
