//! Matching of documents that at least one of several scorers matches.

use vstd::prelude::*;

use crate::error::LuceneError;
use crate::search::disi_wrapper::DisiWrapper;
use crate::search::disjunction_disi_approximation::{
    by_decreasing_cost, same_clauses, scorers_by_decreasing_cost, total_cost, union_docs,
    wrap_by_cost, DisjunctionDISIApproximation,
};
use crate::search::doc_id_set_iterator::{
    first_from_in_range, is_first_from, DocIdSetIterator, NO_MORE_DOCS,
};
use crate::search::index_priority_queue::{
    all_below, by_value, queue_operations_keep_heap, IndexOrder, IndexPriorityQueue,
};
use crate::search::score_mode::ScoreMode;
use crate::search::scorer::{looked_ahead, single_runs, BlockScorer, Matching, Scorer};
use crate::util::fixed_bit_set::FixedBitSet;
use crate::util::heap::{heap_root_is_least, is_heap, parent, refines};
use crate::util::sort::is_stable_order;

verus! {

/// Orders wrappers by their match cost.
#[derive(Debug)]
pub struct ByMatchCost;

impl<S: Scorer> IndexOrder<DisiWrapper<S>> for ByMatchCost {
    open spec fn less(a: DisiWrapper<S>, b: DisiWrapper<S>) -> bool {
        a.match_cost < b.match_cost
    }

    fn less_than(a: &DisiWrapper<S>, b: &DisiWrapper<S>) -> (r: bool) {
        a.match_cost < b.match_cost
    }
}

/// The documents that at least one of the wrappers matches.
pub open spec fn union_hits<S: Scorer>(ws: Seq<DisiWrapper<S>>) -> Set<int> {
    Set::new(
        |d: int| exists|i: int| 0 <= i < ws.len() && #[trigger] ws[i].scorer.view().hits.contains(d),
    )
}

/// Whether at least one of the wrappers has a two-phase view.
pub open spec fn any_two_phase<S: Scorer>(ws: Seq<DisiWrapper<S>>) -> bool {
    exists|i: int| 0 <= i < ws.len() && (#[trigger] ws[i]).two_phase
}

proof fn lemma_same_hits<S: Scorer>(a: Seq<DisiWrapper<S>>, b: Seq<DisiWrapper<S>>)
    requires
        same_clauses(a, b),
    ensures
        union_hits(a) == union_hits(b),
        any_two_phase(a) == any_two_phase(b),
{
    assert forall|d: int| union_hits(a).contains(d) == union_hits(b).contains(d) by {
        if union_hits(a).contains(d) {
            let i = choose|i: int| 0 <= i < a.len() && #[trigger] a[i].scorer.view().hits.contains(d);
            assert(b[i].same_clause(&a[i]));
            assert(b[i].scorer.view().hits.contains(d));
        }
        if union_hits(b).contains(d) {
            let i = choose|i: int| 0 <= i < b.len() && #[trigger] b[i].scorer.view().hits.contains(d);
            assert(b[i].same_clause(&a[i]));
            assert(a[i].scorer.view().hits.contains(d));
        }
    }
    assert(union_hits(a) =~= union_hits(b));
    if any_two_phase(a) {
        let i = choose|i: int| 0 <= i < a.len() && (#[trigger] a[i]).two_phase;
        assert(b[i].same_clause(&a[i]));
        assert(b[i].two_phase);
    }
    if any_two_phase(b) {
        let i = choose|i: int| 0 <= i < b.len() && (#[trigger] b[i]).two_phase;
        assert(b[i].same_clause(&a[i]));
        assert(a[i].two_phase);
    }
}

/// The share of a clause in the average match cost of a disjunction: its cost,
/// at least 1.
pub fn cost_weight(cost: i64) -> (r: i64)
    ensures
        r == if cost <= 1 {
            1
        } else {
            cost
        },
{
    if cost <= 1 {
        1
    } else {
        cost
    }
}

/// A clause that takes part in the score of a document.
#[derive(Debug)]
pub struct ChildScorable {
    /// The position of the clause.
    pub child: usize,
    /// How the clause takes part.
    pub relationship: String,
}

/// Matches the documents that at least one of several scorers matches.
#[verifier::reject_recursive_types(S)]
pub struct DisjunctionScorer<S: Scorer> {
    approximation: DisjunctionDISIApproximation<S>,
    num_clauses: usize,
    needs_scores: bool,
    has_two_phase: bool,
    match_cost: i32,
    verified_matches: Vec<usize>,
    unverified_matches: IndexPriorityQueue<DisiWrapper<S>, ByMatchCost>,
    confirmed: Ghost<Seq<int>>,
}

/// Whether the scorer of a clause was asked about `doc` between two states.
pub open spec fn was_asked<S: Scorer>(
    before: DisiWrapper<S>,
    after: DisiWrapper<S>,
    doc: int,
) -> bool {
    after.scorer.confirmed() == before.scorer.confirmed().push(doc)
}

/// Whether a clause may match `doc`, but has to be asked.
pub open spec fn has_to_be_asked<S: Scorer>(w: DisiWrapper<S>, doc: int) -> bool {
    w.doc == doc && w.two_phase
}

/// The clauses were asked about `doc` at most once each, the cheapest ones first,
/// until one of them matched; none was asked where a clause on `doc` matches
/// without being asked.
pub open spec fn asked_cheapest_first<S: Scorer>(
    before: Seq<DisiWrapper<S>>,
    after: Seq<DisiWrapper<S>>,
    doc: int,
) -> bool {
    &&& forall|i: int|
        0 <= i < before.len() ==> was_asked(before[i], #[trigger] after[i], doc)
            || after[i].scorer.confirmed() == before[i].scorer.confirmed()
    &&& forall|i: int, j: int|
        0 <= i < before.len() && 0 <= j < before.len() && was_asked(
            before[i],
            #[trigger] after[i],
            doc,
        ) && before[j].doc == doc ==> (#[trigger] before[j]).two_phase && has_to_be_asked(
            before[i],
            doc,
        )
    &&& forall|i: int, j: int|
        0 <= i < before.len() && 0 <= j < before.len() && was_asked(
            before[i],
            #[trigger] after[i],
            doc,
        ) && has_to_be_asked(#[trigger] before[j], doc) && before[j].match_cost
            < before[i].match_cost ==> was_asked(before[j], after[j], doc)
            && !before[j].scorer.view().hits.contains(doc)
    &&& forall|i: int, j: int|
        0 <= i < before.len() && 0 <= j < before.len() && i != j && was_asked(
            before[i],
            #[trigger] after[i],
            doc,
        ) && was_asked(before[j], #[trigger] after[j], doc) ==> !(
        before[i].scorer.view().hits.contains(doc) && before[j].scorer.view().hits.contains(doc))
}

proof fn lemma_none_asked<S: Scorer>(ws: Seq<DisiWrapper<S>>, doc: int)
    ensures
        asked_cheapest_first(ws, ws, doc),
{
    assert forall|i: int| 0 <= i < ws.len() implies !#[trigger] was_asked(ws[i], ws[i], doc) by {
        lemma_longer_record(ws[i].scorer.confirmed(), doc);
    }
}

/// A record with one more document is another one.
proof fn lemma_longer_record(a: Seq<int>, d: int)
    ensures
        a.push(d) != a,
{
    assert(a.push(d).len() != a.len());
}

/// Orders positions by the match costs of their wrappers.
spec fn by_match_cost<S: Scorer>(ws: Seq<DisiWrapper<S>>) -> spec_fn(usize, usize) -> bool {
    |a: usize, b: usize| ws[a as int].match_cost <= ws[b as int].match_cost
}

/// The queue by match cost stays one when an entry is added or the first one is
/// removed, which is a cheapest one.
proof fn lemma_queue_by_match_cost<S: Scorer>(ws: Seq<DisiWrapper<S>>, s: Seq<usize>, e: usize)
    requires
        is_heap(s, by_match_cost(ws)),
    ensures
        is_heap(
            crate::util::heap::sift_up(
                s.push(e),
                by_value::<DisiWrapper<S>, ByMatchCost>(ws),
                s.len() as int,
            ),
            by_match_cost(ws),
        ),
        s.len() > 0 ==> is_heap(
            crate::util::heap::sift_down(
                s.update(0, s.last()).drop_last(),
                by_value::<DisiWrapper<S>, ByMatchCost>(ws),
                0,
            ),
            by_match_cost(ws),
        ),
        forall|k: int|
            0 <= k < s.len() ==> ws[s[0] as int].match_cost <= ws[#[trigger] s[k] as int].match_cost,
{
    let le = by_match_cost(ws);
    assert(refines(by_value::<DisiWrapper<S>, ByMatchCost>(ws), le));
    queue_operations_keep_heap::<DisiWrapper<S>, ByMatchCost>(ws, le, s, e);
    assert forall|k: int| 0 <= k < s.len() implies ws[s[0] as int].match_cost <= ws[
    #[trigger] s[k] as int].match_cost by {
        heap_root_is_least(s, le, k);
        assert(le(s[0], s[k]));
    }
}

/// The order by match cost does not change as long as the match costs do not.
proof fn lemma_same_match_costs<S: Scorer>(
    a: Seq<DisiWrapper<S>>,
    b: Seq<DisiWrapper<S>>,
    s: Seq<usize>,
)
    requires
        same_clauses(a, b),
        all_below(s, a.len()),
        is_heap(s, by_match_cost(a)),
    ensures
        is_heap(s, by_match_cost(b)),
{
    let le = by_match_cost(b);
    assert forall|c: int| #![trigger s[c]] 0 < c < s.len() && parent(c) >= 0 implies le(
        s[parent(c)],
        s[c],
    ) by {
        let x = s[parent(c)] as int;
        let y = s[c] as int;
        assert(b[x].same_clause(&a[x]));
        assert(b[y].same_clause(&a[y]));
        assert(by_match_cost(a)(s[parent(c)], s[c]));
    }
}

impl<S: Scorer> DisjunctionScorer<S> {
    /// The clauses, by decreasing cost.
    pub closed spec fn clauses(&self) -> Seq<DisiWrapper<S>> {
        self.approximation.clauses()
    }

    /// The clauses on the current document that are known to match it.
    pub closed spec fn verified(&self) -> Seq<usize> {
        self.verified_matches@
    }

    /// The clauses on the current document that are not yet known to match it
    /// or not.
    pub closed spec fn unverified(&self) -> Seq<usize> {
        self.unverified_matches@
    }

    /// Whether all clauses that match a document are wanted.
    pub closed spec fn needs_scores(&self) -> bool {
        self.needs_scores
    }

    /// The iterator over the documents that may match.
    pub closed spec fn approx(&self) -> DisjunctionDISIApproximation<S> {
        self.approximation
    }

    /// Every clause that matches the current document is among the verified or
    /// the unverified ones, the verified ones match it, and each clause is among
    /// them once.
    pub open spec fn candidates_complete(&self) -> bool {
        let ws = self.clauses();
        let doc = self.view().ids.doc;
        &&& 0 <= doc < NO_MORE_DOCS
        &&& forall|p: usize|
            #![trigger self.verified().contains(p)]
            #![trigger self.unverified().contains(p)]
            p < ws.len() && ws[p as int].scorer.view().hits.contains(doc) ==> self.verified().contains(p)
                || self.unverified().contains(p)
        &&& forall|p: usize| #[trigger]
            self.verified().contains(p) ==> p < ws.len() && ws[p as int].scorer.view().hits.contains(doc)
        &&& forall|p: usize| #[trigger]
            self.unverified().contains(p) ==> p < ws.len() && ws[p as int].doc == doc
        &&& (self.verified() + self.unverified()).no_duplicates()
    }

    spec fn shape(&self) -> bool {
        &&& self.clauses().len() == self.num_clauses
        &&& self.num_clauses >= 2
        &&& self.unverified_matches.wf()
        &&& self.unverified_matches.max_size() == self.num_clauses
        &&& self.has_two_phase == any_two_phase(self.clauses())
        &&& !self.has_two_phase ==> self.match_cost == 0
    }

    proof fn lemma_valid(&self)
        requires
            self.inv(),
        ensures
            self.view().valid(),
            self.view().ids == self.approximation.view(),
    {
        self.approximation.clauses_are_positioned();
        let ws = self.clauses();
        assert forall|d: int| #[trigger] union_hits(ws).contains(d) implies union_docs(ws).contains(
            d,
        ) by {
            let i = choose|i: int|
                0 <= i < ws.len() && #[trigger] ws[i].scorer.view().hits.contains(d);
            assert(ws[i].inv());
            assert(ws[i].scorer.view().ids.docs.contains(d));
        }
        if !self.has_two_phase {
            assert forall|d: int| union_docs(ws).contains(d) implies #[trigger] union_hits(
                ws,
            ).contains(d) by {
                let i = choose|i: int|
                    0 <= i < ws.len() && #[trigger] ws[i].scorer.view().ids.docs.contains(d);
                assert(ws[i].inv());
                assert(!ws[i].two_phase);
                assert(ws[i].scorer.view().hits.contains(d));
            }
            assert(union_hits(ws) =~= union_docs(ws));
        }
    }
}

impl<S: Scorer> Scorer for DisjunctionScorer<S> {
    closed spec fn view(&self) -> Matching {
        Matching {
            ids: self.approximation.view(),
            hits: union_hits(self.clauses()),
            two_phase: self.has_two_phase,
            cost: self.approximation.reported_cost(),
            match_cost: self.match_cost,
            runs: single_runs(self.has_two_phase),
        }
    }

    closed spec fn inv(&self) -> bool {
        self.approximation.inv() && self.shape()
    }

    closed spec fn infallible(&self) -> bool {
        self.approximation.infallible()
    }

    closed spec fn confirmed(&self) -> Seq<int> {
        self.confirmed@
    }

    fn doc_id(&self) -> (r: i32) {
        proof {
            self.lemma_valid();
        }
        self.approximation.doc_id()
    }

    fn next_approximation(&mut self) -> (r: Result<i32, LuceneError>)
        ensures
            final(self).needs_scores() == old(self).needs_scores(),
            r is Ok ==> same_clauses(old(self).clauses(), final(self).clauses()),
    {
        let r = self.approximation.next_doc();
        proof {
            if r is Ok {
                lemma_same_hits(old(self).clauses(), self.clauses());
                self.lemma_valid();
            }
        }
        r
    }

    fn advance_approximation(&mut self, target: i32) -> (r: Result<i32, LuceneError>)
        ensures
            final(self).needs_scores() == old(self).needs_scores(),
            r is Ok ==> same_clauses(old(self).clauses(), final(self).clauses()),
    {
        let r = self.approximation.advance(target);
        proof {
            if r is Ok {
                lemma_same_hits(old(self).clauses(), self.clauses());
                self.lemma_valid();
            }
        }
        r
    }

    fn load_approximation(
        &mut self,
        up_to: i32,
        bit_set: &mut FixedBitSet,
        offset: i32,
    ) -> (r: Result<(), LuceneError>)
        ensures
            final(self).needs_scores() == old(self).needs_scores(),
            r is Ok ==> same_clauses(old(self).clauses(), final(self).clauses()),
    {
        assert forall|d: int| #[trigger]
            self.approximation.view().docs.contains(d) && self.approximation.view().read_from()
                <= d < up_to implies 0 <= d - offset < bit_set@.len() && d - offset <= i32::MAX by {
            assert(self.view().ids.docs.contains(d));
        }
        let r = self.approximation.into_bit_set(up_to, bit_set, offset);
        proof {
            if r is Ok {
                lemma_same_hits(old(self).clauses(), self.clauses());
                self.lemma_valid();
            }
        }
        r
    }

    fn cost(&self) -> (r: i64) {
        self.approximation.cost()
    }

    fn has_two_phase(&self) -> (r: bool) {
        self.has_two_phase
    }

    fn match_cost(&self) -> (r: i32) {
        self.match_cost
    }

    fn matches(&mut self) -> (r: Result<bool, LuceneError>)
        ensures
            final(self).needs_scores() == old(self).needs_scores(),
            r is Ok ==> same_clauses(old(self).clauses(), final(self).clauses()),
            r matches Ok(true) ==> old(self).needs_scores() ==> final(self).candidates_complete(),
            r is Ok ==> asked_cheapest_first(
                old(self).clauses(),
                final(self).clauses(),
                old(self).view().ids.doc,
            ),
    {
        let r = self.two_phase_matches();
        proof {
            let decided = *self;
            if r is Ok {
                self.confirmed@ = self.confirmed@.push(self.view().ids.doc);
            }
            assert(self.view() == decided.view());
            assert(r == Ok::<bool, LuceneError>(true) && old(self).needs_scores()
                ==> decided.candidates_complete());
            assert(decided.candidates_complete() ==> self.candidates_complete());
        }
        r
    }

    fn hits_run_end(&self) -> (r: Result<i32, LuceneError>) {
        proof {
            self.lemma_valid();
        }
        let doc: i32 = self.approximation.doc_id();
        if self.has_two_phase {
            Ok(doc)
        } else {
            Ok(doc + 1)
        }
    }
}

/// No more than `n` different positions are below `n`.
proof fn lemma_distinct_bounded(s: Seq<usize>, n: nat)
    requires
        s.no_duplicates(),
        forall|i: int| 0 <= i < s.len() ==> #[trigger] s[i] < n,
    ensures
        s.len() <= n,
    decreases n,
{
    if n == 0 {
        if s.len() > 0 {
            assert(s[0] < n);
        }
    } else if s.contains((n - 1) as usize) {
        let k = choose|k: int| 0 <= k < s.len() && s[k] == (n - 1) as usize;
        let t = s.remove(k);
        assert forall|i: int| 0 <= i < t.len() implies #[trigger] t[i] < n - 1 by {
            let j = if i < k {
                i
            } else {
                i + 1
            };
            assert(t[i] == s[j]);
            assert(s[j] != s[k]);
        }
        assert(t.no_duplicates()) by {
            assert forall|a: int, b: int| 0 <= a < b < t.len() implies t[a] != t[b] by {
                let x = if a < k {
                    a
                } else {
                    a + 1
                };
                let y = if b < k {
                    b
                } else {
                    b + 1
                };
                assert(s[x] != s[y]);
            }
        }
        lemma_distinct_bounded(t, (n - 1) as nat);
    } else {
        assert forall|i: int| 0 <= i < s.len() implies #[trigger] s[i] < n - 1 by {
            assert(s.contains(s[i]));
        }
        lemma_distinct_bounded(s, (n - 1) as nat);
    }
}

proof fn lemma_popped(before: Seq<usize>, after: Seq<usize>, e: usize, p: usize)
    requires
        after.to_multiset().insert(e) == before.to_multiset(),
    ensures
        before.contains(p) <==> after.contains(p) || p == e,
        before.no_duplicates() ==> after.no_duplicates() && !after.contains(e),
        after.len() + 1 == before.len(),
{
    broadcast use vstd::seq_lib::group_to_multiset_ensures;

    assert(before.to_multiset().count(p) == after.to_multiset().insert(e).count(p));
    assert(before.contains(p) <==> before.to_multiset().count(p) > 0);
    assert(after.contains(p) <==> after.to_multiset().count(p) > 0);
    assert(before.len() == before.to_multiset().len());
    assert(after.len() == after.to_multiset().len());
    if before.no_duplicates() {
        before.lemma_multiset_has_no_duplicates();
        assert(before.contains(e) <==> before.to_multiset().count(e) > 0);
        assert(after.contains(e) <==> after.to_multiset().count(e) > 0);
        assert forall|x: usize| after.to_multiset().contains(x) implies after.to_multiset().count(x)
            == 1 by {
            assert(before.to_multiset().count(x) == after.to_multiset().insert(e).count(x));
            assert(before.to_multiset().contains(x));
        }
        after.lemma_multiset_has_no_duplicates_conv();
    }
}

proof fn lemma_added(before: Seq<usize>, after: Seq<usize>, e: usize, p: usize)
    requires
        after.to_multiset() == before.to_multiset().insert(e),
    ensures
        after.contains(p) <==> before.contains(p) || p == e,
        before.no_duplicates() && !before.contains(e) ==> after.no_duplicates(),
        after.len() == before.len() + 1,
{
    broadcast use vstd::seq_lib::group_to_multiset_ensures;

    assert(after.to_multiset().count(p) == before.to_multiset().insert(e).count(p));
    assert(before.contains(p) <==> before.to_multiset().count(p) > 0);
    assert(after.contains(p) <==> after.to_multiset().count(p) > 0);
    assert(before.len() == before.to_multiset().len());
    assert(after.len() == after.to_multiset().len());
    if before.no_duplicates() && !before.contains(e) {
        before.lemma_multiset_has_no_duplicates();
        assert(before.contains(e) <==> before.to_multiset().count(e) > 0);
        assert forall|x: usize| after.to_multiset().contains(x) implies after.to_multiset().count(x)
            == 1 by {
            assert(after.to_multiset().count(x) == before.to_multiset().insert(e).count(x));
            if x != e {
                assert(before.to_multiset().contains(x));
            }
        }
        after.lemma_multiset_has_no_duplicates_conv();
    }
}

impl<S: Scorer> DisjunctionScorer<S> {
    /// Decides whether a clause matches the current document. With scores
    /// needed, all clauses that may match it are collected.
    fn two_phase_matches(&mut self) -> (r: Result<bool, LuceneError>)
        requires
            old(self).inv(),
            old(self).view().ids.docs.contains(old(self).view().ids.doc),
        ensures
            old(self).infallible() ==> r is Ok,
            final(self).infallible() == old(self).infallible(),
            final(self).view() == old(self).view(),
            final(self).needs_scores() == old(self).needs_scores(),
            same_clauses(old(self).clauses(), final(self).clauses()),
            r is Ok ==> final(self).inv(),
            r matches Ok(b) ==> b == old(self).view().hits.contains(old(self).view().ids.doc),
            r matches Ok(true) ==> old(self).needs_scores() ==> final(self).candidates_complete(),
            r is Ok ==> asked_cheapest_first(
                old(self).clauses(),
                final(self).clauses(),
                old(self).view().ids.doc,
            ),
            final(self).confirmed() == old(self).confirmed(),
    {
        proof {
            self.lemma_valid();
            self.approximation.clauses_are_positioned();
            lemma_none_asked(self.clauses(), self.view().ids.doc);
        }
        let ghost doc = self.view().ids.doc;
        let ghost ws = self.clauses();
        let ghost n = self.num_clauses as nat;
        self.verified_matches.clear();
        self.unverified_matches.clear();
        let list: Vec<usize> = self.approximation.top_list();
        proof {
            assert forall|i: int| 0 <= i < list@.len() implies #[trigger] list@[i] < n
                && ws[list@[i] as int].doc == doc by {
                self.approximation.current_list_is_complete(list@[i]);
                assert(list@.contains(list@[i]));
            }
            self.approximation.current_list_is_complete(0);
            lemma_distinct_bounded(list@, n);
        }
        let mut i: usize = 0;
        while i < list.len()
            invariant
                self.approximation == old(self).approximation,
                self.shape(),
                self.num_clauses == old(self).num_clauses,
                self.needs_scores == old(self).needs_scores,
                self.has_two_phase == old(self).has_two_phase,
                self.match_cost == old(self).match_cost,
                self.confirmed == old(self).confirmed,
                is_heap(self.unverified_matches@, by_match_cost(ws)),
                asked_cheapest_first(ws, ws, doc),
                old(self).inv(),
                ws == self.clauses(),
                ws.len() == n,
                n == self.num_clauses,
                doc == old(self).view().ids.doc,
                0 <= doc < NO_MORE_DOCS,
                list@.len() <= n,
                list@.no_duplicates(),
                i <= list@.len(),
                forall|k: int|
                    0 <= k < list@.len() ==> #[trigger] list@[k] < n && ws[list@[k] as int].doc
                        == doc,
                self.unverified_matches@.len() <= i,
                all_below(self.unverified_matches@, n),
                self.unverified_matches@.no_duplicates(),
                self.verified_matches@.no_duplicates(),
                !self.needs_scores ==> self.verified_matches@.len() == 0,
                forall|p: usize| #[trigger]
                    self.unverified_matches@.contains(p) <==> list@.take(i as int).contains(p)
                        && ws[p as int].two_phase,
                forall|p: usize| #[trigger]
                    self.verified_matches@.contains(p) <==> list@.take(i as int).contains(p)
                        && !ws[p as int].two_phase,
            decreases list.len() - i,
        {
            let position: usize = list[i];
            let ghost before = self.unverified_matches@;
            let ghost seen = list@.take(i as int);
            proof {
                assert(list@.take(i + 1) =~= seen.push(position));
                assert forall|p: usize| list@.take(i + 1).contains(p) <==> seen.contains(p) || p
                    == position by {
                    lemma_push_contains(seen, position, p);
                }
                assert(!seen.contains(position)) by {
                    if seen.contains(position) {
                        let k = choose|k: int| 0 <= k < seen.len() && seen[k] == position;
                        assert(list@[k] == list@[i as int]);
                    }
                }
            }
            if !self.approximation.wrapper(position).has_two_phase() {
                let ghost vs = self.verified_matches@;
                self.verified_matches.push(position);
                proof {
                    assert forall|p: usize| #[trigger]
                        self.verified_matches@.contains(p) <==> vs.contains(p) || p == position by {
                        lemma_push_contains(vs, position, p);
                    }
                    assert forall|a: int| 0 <= a < vs.len() implies vs[a] != position by {
                        assert(vs.contains(vs[a]));
                    }
                }
                if !self.needs_scores {
                    proof {
                        self.approximation.clauses_are_positioned();
                        let w = ws[position as int];
                        assert(w.inv());
                        assert(w.scorer.view().hits.contains(doc));
                        assert(union_hits(ws).contains(doc));
                    }
                    return Ok(true);
                }
            } else {
                self.unverified_matches.add(self.approximation.wrappers(), position);
                proof {
                    lemma_queue_by_match_cost(ws, before, position);
                    assert forall|p: usize| #[trigger]
                        self.unverified_matches@.contains(p) <==> before.contains(p) || p
                            == position by {
                        lemma_added(before, self.unverified_matches@, position, p);
                    }
                    lemma_added(before, self.unverified_matches@, position, position);
                    assert forall|k: int| 0 <= k < self.unverified_matches@.len() implies #[trigger] self.unverified_matches@[k]
                        < n by {
                        assert(self.unverified_matches@.contains(self.unverified_matches@[k]));
                        let p = self.unverified_matches@[k];
                        if p != position {
                            let m = choose|m: int| 0 <= m < before.len() && before[m] == p;
                            assert(before[m] < n);
                        }
                    }
                }
            }
            i += 1;
        }
        proof {
            assert(list@.take(list@.len() as int) =~= list@);
            self.approximation.clauses_are_positioned();
            self.lemma_candidates(list@, doc);
        }
        if self.verified_matches.len() > 0 {
            proof {
                let p = self.verified_matches@[0];
                assert(self.verified_matches@.contains(p));
                assert(ws[p as int].scorer.view().hits.contains(doc));
                assert(union_hits(ws).contains(doc));
            }
            return Ok(true);
        }
        proof {
            assert forall|p: int| 0 <= p < ws.len() implies #[trigger] ws[p].doc == doc
                ==> ws[p].two_phase && self.unverified().contains(p as usize) by {
                self.approximation.current_list_is_complete(p as usize);
                if ws[p].doc == doc && !ws[p].two_phase {
                    assert(self.verified_matches@.contains(p as usize));
                }
            }
            assert(self.unverified_asked(ws, doc));
        }
        while self.unverified_matches.size() > 0
            invariant
                self.unverified_asked(ws, doc),
                is_heap(self.unverified_matches@, by_match_cost(self.clauses())),
                forall|p: int| 0 <= p < ws.len() && #[trigger] ws[p].doc == doc ==> ws[p].two_phase,
                forall|p: int|
                    0 <= p < ws.len() ==> (#[trigger] self.clauses()[p]).doc == ws[p].doc,
                self.confirmed == old(self).confirmed,
                self.inv(),
                self.infallible() == old(self).infallible(),
                self.view() == old(self).view(),
                self.needs_scores == old(self).needs_scores,
                same_clauses(old(self).clauses(), self.clauses()),
                ws == old(self).clauses(),
                doc == old(self).view().ids.doc,
                self.verified_matches@.len() == 0,
                self.candidates_complete(),
            decreases self.unverified_matches@.len(),
        {
            let ghost before = *self;
            proof {
                assert(all_below(self.unverified_matches@, self.clauses().len())) by {
                    assert forall|k: int| 0 <= k < self.unverified_matches@.len() implies #[trigger] self.unverified_matches@[k]
                        < self.clauses().len() by {
                        assert(self.unverified().contains(self.unverified_matches@[k]));
                    }
                }
            }
            proof {
                lemma_queue_by_match_cost(self.clauses(), self.unverified_matches@, 0);
            }
            let popped = self.unverified_matches.pop(self.approximation.wrappers());
            let position: usize = match popped {
                Some(p) => p,
                None => {
                    assert(false);
                    0
                },
            };
            proof {
                assert(before.unverified().contains(position));
                assert forall|p: usize| before.unverified().contains(p) <==> #[trigger] self.unverified().contains(
                p) || p == position by {
                    lemma_popped(before.unverified(), self.unverified(), position, p);
                }
                lemma_popped(before.unverified(), self.unverified(), position, position);
                assert(before.verified() + before.unverified() =~= before.unverified());
                self.approximation.clauses_are_positioned();
            }
            let confirmed: bool = match self.approximation.confirm(position) {
                Ok(b) => b,
                Err(e) => {
                    proof {
                        before.approximation.clauses_are_positioned();
                        lemma_same_hits(before.clauses(), self.clauses());
                        lemma_same_clauses_trans(
                            old(self).clauses(),
                            before.clauses(),
                            self.clauses(),
                        );
                    }
                    return Err(e);
                },
            };
            proof {
                lemma_same_hits(before.clauses(), self.clauses());
                lemma_same_hits(old(self).clauses(), before.clauses());
                lemma_same_clauses_trans(old(self).clauses(), before.clauses(), self.clauses());
                assert(self.clauses()[position as int].same_clause(
                    &before.clauses()[position as int],
                ));
                assert(before.clauses()[position as int].same_clause(&ws[position as int]));
                assert(before.clauses()[position as int].doc == doc);
                self.lemma_asked_next(&before, ws, doc, position);
                assert(all_below(self.unverified_matches@, self.clauses().len())) by {
                    assert forall|k: int|
                        0 <= k < self.unverified_matches@.len() implies #[trigger] self.unverified_matches@[k]
                        < self.clauses().len() by {
                        assert(self.unverified().contains(self.unverified_matches@[k]));
                    }
                }
                lemma_same_match_costs(
                    before.clauses(),
                    self.clauses(),
                    self.unverified_matches@,
                );
            }
            if confirmed {
                self.verified_matches.clear();
                self.verified_matches.push(position);
                proof {
                    assert(self.clauses()[position as int].scorer.view().hits.contains(doc));
                    assert(union_hits(self.clauses()).contains(doc));
                    assert(self.verified() =~= seq![position]);
                    self.lemma_after_pop(&before, position);
                }
                return Ok(true);
            }
            proof {
                assert(self.verified() =~= Seq::<usize>::empty());
                self.lemma_after_pop(&before, position);
            }
        }
        proof {
            if union_hits(self.clauses()).contains(doc) {
                let i = choose|i: int|
                    0 <= i < self.clauses().len()
                        && #[trigger] self.clauses()[i].scorer.view().hits.contains(doc);
                assert(!self.verified().contains(i as usize));
                assert(!self.unverified().contains(i as usize));
            }
        }
        Ok(false)
    }

    /// The clauses that are no longer among the unverified ones were asked and do
    /// not match, all others were not asked and are not cheaper.
    spec fn unverified_asked(&self, ws: Seq<DisiWrapper<S>>, doc: int) -> bool {
        let now = self.clauses();
        &&& now.len() == ws.len()
        &&& forall|i: int|
            #![trigger now[i]]
            0 <= i < ws.len() ==> if has_to_be_asked(ws[i], doc) && !self.unverified().contains(
                i as usize,
            ) {
                was_asked(ws[i], now[i], doc) && !ws[i].scorer.view().hits.contains(doc)
            } else {
                now[i].scorer.confirmed() == ws[i].scorer.confirmed()
            }
        &&& forall|i: int, j: int|
            #![trigger ws[i], ws[j]]
            0 <= i < ws.len() && 0 <= j < ws.len() && has_to_be_asked(ws[i], doc)
                && !self.unverified().contains(i as usize) && self.unverified().contains(
                j as usize,
            ) ==> ws[i].match_cost <= ws[j].match_cost
    }

    /// Asking a cheapest one of the unverified clauses.
    proof fn lemma_asked_next(
        &self,
        before: &Self,
        ws: Seq<DisiWrapper<S>>,
        doc: int,
        position: usize,
    )
        requires
            before.unverified_asked(ws, doc),
            same_clauses(ws, before.clauses()),
            ws.len() <= usize::MAX,
            position < ws.len(),
            has_to_be_asked(ws[position as int], doc),
            forall|p: int| 0 <= p < ws.len() && #[trigger] ws[p].doc == doc ==> ws[p].two_phase,
            before.unverified().contains(position),
            !self.unverified().contains(position),
            forall|p: usize|
                before.unverified().contains(p) <==> #[trigger] self.unverified().contains(p) || p
                    == position,
            forall|p: usize| #[trigger]
                before.unverified().contains(p) ==> p < ws.len()
                    && before.clauses()[position as int].match_cost
                    <= before.clauses()[p as int].match_cost,
            self.clauses().len() == ws.len(),
            forall|i: int|
                0 <= i < ws.len() && i != position ==> #[trigger] self.clauses()[i]
                    == before.clauses()[i],
            was_asked(
                before.clauses()[position as int],
                self.clauses()[position as int],
                doc,
            ),
        ensures
            asked_cheapest_first(ws, self.clauses(), doc),
            !ws[position as int].scorer.view().hits.contains(doc) ==> self.unverified_asked(
                ws,
                doc,
            ),
    {
        let was = before.clauses();
        let now = self.clauses();
        let p = position as int;
        assert forall|i: int| 0 <= i < ws.len() implies #[trigger] ws[i].match_cost
            == was[i].match_cost by {
            assert(was[i].same_clause(&ws[i]));
        }
        assert(was[p].scorer.confirmed() == ws[p].scorer.confirmed());
        assert forall|i: int| 0 <= i < ws.len() implies #[trigger] was_asked(ws[i], now[i], doc)
            == (has_to_be_asked(ws[i], doc) && !self.unverified().contains(i as usize)) by {
            lemma_longer_record(ws[i].scorer.confirmed(), doc);
            assert(was[i].scorer.confirmed() == was[i].scorer.confirmed());
            assert(before.unverified().contains(i as usize) <==> self.unverified().contains(
                i as usize,
            ) || i as usize == position);
        }
        assert forall|i: int, j: int|
            #![trigger ws[i], ws[j]]
            0 <= i < ws.len() && 0 <= j < ws.len() && has_to_be_asked(ws[i], doc)
                && !self.unverified().contains(i as usize) && self.unverified().contains(
                j as usize,
            ) implies ws[i].match_cost <= ws[j].match_cost by {
            assert(before.unverified().contains(j as usize));
            if i != p {
                assert(!before.unverified().contains(i as usize));
            }
        }
        assert forall|i: int| 0 <= i < ws.len() implies was_asked(ws[i], #[trigger] now[i], doc)
            || now[i].scorer.confirmed() == ws[i].scorer.confirmed() by {
            assert(was[i].scorer.confirmed() == was[i].scorer.confirmed());
        }
        assert forall|i: int, j: int|
            0 <= i < ws.len() && 0 <= j < ws.len() && was_asked(ws[i], #[trigger] now[i], doc)
                && has_to_be_asked(#[trigger] ws[j], doc) && ws[j].match_cost
                < ws[i].match_cost implies was_asked(ws[j], now[j], doc)
            && !ws[j].scorer.view().hits.contains(doc) by {
            assert(was_asked(ws[j], now[j], doc) == (has_to_be_asked(ws[j], doc)
                && !self.unverified().contains(j as usize)));
            if self.unverified().contains(j as usize) {
                assert(ws[i].match_cost <= ws[j].match_cost);
            }
            if j == p {
                assert(!self.unverified().contains(i as usize));
                if i != p {
                    assert(!before.unverified().contains(i as usize));
                    assert(ws[i].match_cost <= ws[p].match_cost);
                }
            } else {
                assert(!before.unverified().contains(j as usize));
                assert(was[j].scorer.confirmed() == was[j].scorer.confirmed());
            }
        }
        assert forall|i: int, j: int|
            0 <= i < ws.len() && 0 <= j < ws.len() && i != j && was_asked(
                ws[i],
                #[trigger] now[i],
                doc,
            ) && was_asked(ws[j], #[trigger] now[j], doc) implies !(
        ws[i].scorer.view().hits.contains(doc) && ws[j].scorer.view().hits.contains(doc)) by {
            let k = if i == p {
                j
            } else {
                i
            };
            assert(was_asked(ws[k], now[k], doc));
            assert(!before.unverified().contains(k as usize));
            assert(was[k].scorer.confirmed() == was[k].scorer.confirmed());
        }
    }

    /// The clauses of the list of the current document are the candidates.
    proof fn lemma_candidates(&self, list: Seq<usize>, doc: int)
        requires
            self.inv(),
            doc == self.view().ids.doc,
            0 <= doc < NO_MORE_DOCS,
            list == self.approximation.current_list(),
            self.unverified_matches@.no_duplicates(),
            self.verified_matches@.no_duplicates(),
            forall|p: usize| #[trigger]
                self.unverified_matches@.contains(p) <==> list.contains(p)
                    && self.clauses()[p as int].two_phase,
            forall|p: usize| #[trigger]
                self.verified_matches@.contains(p) <==> list.contains(p)
                    && !self.clauses()[p as int].two_phase,
        ensures
            self.candidates_complete(),
    {
        let ws = self.clauses();
        let v = self.verified();
        let u = self.unverified();
        self.approximation.clauses_are_positioned();
        assert forall|p: usize| list.contains(p) <==> p < ws.len() && ws[p as int].doc == doc by {
            self.approximation.current_list_is_complete(p);
        }
        assert forall|p: usize| #[trigger] v.contains(p) implies p < ws.len()
            && ws[p as int].scorer.view().hits.contains(doc) by {
            assert(ws[p as int].inv());
        }
        assert forall|p: usize|
            #![trigger self.verified().contains(p)]
            #![trigger self.unverified().contains(p)]
            p < ws.len() && ws[p as int].scorer.view().hits.contains(doc) implies v.contains(p)
            || u.contains(p) by {
            assert(ws[p as int].inv());
            assert(ws[p as int].scorer.view().ids.docs.contains(doc));
            assert(ws[p as int].doc == doc);
        }
        let all = v + u;
        assert forall|a: int, b: int| 0 <= a < b < all.len() implies all[a] != all[b] by {
            if b < v.len() {
            } else if a >= v.len() {
                assert(all[a] == u[a - v.len()] && all[b] == u[b - v.len()]);
            } else {
                assert(v.contains(all[a]));
                assert(u.contains(all[b])) by {
                    assert(u[b - v.len()] == all[b]);
                }
            }
        }
    }

    /// What is left after the candidate at `position` has been decided.
    proof fn lemma_after_pop(&self, before: &Self, position: usize)
        requires
            before.inv(),
            before.candidates_complete(),
            before.verified().len() == 0,
            self.view() == before.view(),
            same_clauses(before.clauses(), self.clauses()),
            forall|i: int|
                0 <= i < before.clauses().len() ==> (#[trigger] self.clauses()[i]).doc
                    == before.clauses()[i].doc,
            self.unverified().no_duplicates(),
            !self.unverified().contains(position),
            position < self.clauses().len(),
            forall|p: usize|
                before.unverified().contains(p) <==> #[trigger] self.unverified().contains(p) || p
                    == position,
            self.verified() == if self.clauses()[position as int].scorer.view().hits.contains(
                self.view().ids.doc,
            ) {
                seq![position]
            } else {
                Seq::empty()
            },
        ensures
            self.candidates_complete(),
    {
        let ws = self.clauses();
        let doc = self.view().ids.doc;
        let v = self.verified();
        let u = self.unverified();
        assert forall|p: usize| p < ws.len() implies (#[trigger] ws[p as int]).scorer.view().hits
            == before.clauses()[p as int].scorer.view().hits by {
            assert(ws[p as int].same_clause(&before.clauses()[p as int]));
        }
        assert forall|p: usize|
            #![trigger self.verified().contains(p)]
            #![trigger self.unverified().contains(p)]
            p < ws.len() && ws[p as int].scorer.view().hits.contains(doc) implies v.contains(p)
            || u.contains(p) by {
            assert(!before.verified().contains(p));
            assert(before.unverified().contains(p));
            if p == position {
                assert(v[0] == p);
            }
        }
        assert forall|p: usize| #[trigger] u.contains(p) implies p < ws.len() && ws[p as int].doc
            == doc by {
            assert(before.unverified().contains(p));
        }
        let all = v + u;
        assert forall|a: int, b: int| 0 <= a < b < all.len() implies all[a] != all[b] by {
            if a >= v.len() {
                assert(all[a] == u[a - v.len()] && all[b] == u[b - v.len()]);
            } else {
                assert(all[b] == u[b - v.len()]);
                assert(u.contains(all[b]));
            }
        }
    }
}

proof fn lemma_push_contains(s: Seq<usize>, e: usize, p: usize)
    ensures
        s.push(e).contains(p) <==> s.contains(p) || p == e,
{
    let t = s.push(e);
    if t.contains(p) {
        let i = choose|i: int| 0 <= i < t.len() && t[i] == p;
        if i < s.len() {
            assert(s[i] == p);
        }
    }
    if s.contains(p) {
        let i = choose|i: int| 0 <= i < s.len() && s[i] == p;
        assert(t[i] == p);
    }
    if p == e {
        assert(t[s.len() as int] == p);
    }
}

proof fn lemma_same_clauses_trans<S: Scorer>(
    a: Seq<DisiWrapper<S>>,
    b: Seq<DisiWrapper<S>>,
    c: Seq<DisiWrapper<S>>,
)
    requires
        same_clauses(a, b),
        same_clauses(b, c),
    ensures
        same_clauses(a, c),
{
    assert forall|i: int| 0 <= i < a.len() implies (#[trigger] c[i]).same_clause(&a[i]) by {
        assert(c[i].same_clause(&b[i]));
        assert(b[i].same_clause(&a[i]));
    }
}

/// The positions of `ps` whose wrapper matches `doc`.
pub open spec fn matching<S: Scorer>(ps: Seq<usize>, ws: Seq<DisiWrapper<S>>, doc: int) -> Seq<
    usize,
>
    decreases ps.len(),
{
    if ps.len() == 0 {
        Seq::empty()
    } else {
        let rest = matching(ps.drop_last(), ws, doc);
        if ws[ps.last() as int].scorer.view().hits.contains(doc) {
            rest.push(ps.last())
        } else {
            rest
        }
    }
}

proof fn lemma_matching<S: Scorer>(ps: Seq<usize>, ws: Seq<DisiWrapper<S>>, doc: int)
    ensures
        forall|p: usize| #[trigger]
            matching(ps, ws, doc).contains(p) <==> ps.contains(p)
                && ws[p as int].scorer.view().hits.contains(doc),
        ps.no_duplicates() ==> matching(ps, ws, doc).no_duplicates(),
    decreases ps.len(),
{
    if ps.len() > 0 {
        let front = ps.drop_last();
        lemma_matching(front, ws, doc);
        assert(ps =~= front.push(ps.last()));
        let m = matching(front, ws, doc);
        assert forall|p: usize| #[trigger]
            matching(ps, ws, doc).contains(p) <==> ps.contains(p)
                && ws[p as int].scorer.view().hits.contains(doc) by {
            lemma_push_contains(front, ps.last(), p);
            lemma_push_contains(m, ps.last(), p);
            assert(m.contains(p) <==> front.contains(p) && ws[p as int].scorer.view().hits.contains(
                doc,
            ));
        }
        if ps.no_duplicates() {
            assert(front.no_duplicates());
            assert(!front.contains(ps.last())) by {
                if front.contains(ps.last()) {
                    let i = choose|i: int| 0 <= i < front.len() && front[i] == ps.last();
                    assert(ps[i] == ps[ps.len() - 1]);
                }
            }
            assert forall|a: int| 0 <= a < m.len() implies m[a] != ps.last() by {
                assert(m.contains(m[a]));
            }
        }
    }
}

proof fn lemma_matching_same<S: Scorer>(
    ps: Seq<usize>,
    a: Seq<DisiWrapper<S>>,
    b: Seq<DisiWrapper<S>>,
    doc: int,
)
    requires
        same_clauses(a, b),
        forall|i: int| 0 <= i < ps.len() ==> #[trigger] ps[i] < a.len(),
    ensures
        matching(ps, a, doc) == matching(ps, b, doc),
    decreases ps.len(),
{
    if ps.len() > 0 {
        lemma_matching_same(ps.drop_last(), a, b, doc);
        let p = ps[ps.len() - 1] as int;
        assert(b[p].same_clause(&a[p]));
    }
}

impl<S: Scorer> DisjunctionScorer<S> {
    /// The clauses that match the current document, in the order in which they
    /// are scored.
    pub open spec fn matching_clauses(&self) -> Seq<usize> {
        if self.view().two_phase {
            (self.verified() + matching(
                self.unverified(),
                self.clauses(),
                self.view().ids.doc,
            )).reverse()
        } else {
            self.approx().current_list()
        }
    }

    /// Creates a scorer over at least two sub-scorers.
    ///
    /// `average_match_cost` is the average of the match costs of the sub-scorers
    /// with a two-phase view, each weighted by [`cost_weight`], as an integer
    /// ordered like it; it is ignored when there is no such sub-scorer.
    ///
    /// # Errors
    ///
    /// [`LuceneError::IllegalArgument`] with fewer than two sub-scorers.
    pub fn new(
        sub_scorers: Vec<S>,
        score_mode: ScoreMode,
        lead_cost: i64,
        average_match_cost: i32,
    ) -> (r: Result<Self, LuceneError>)
        requires
            sub_scorers@.len() < i32::MAX,
            forall|i: int|
                0 <= i < sub_scorers@.len() ==> (#[trigger] sub_scorers@[i]).inv()
                    && sub_scorers@[i].view().ids.doc == -1,
        ensures
            r is Ok <==> sub_scorers@.len() >= 2,
            r matches Err(e) ==> e.is_illegal_argument("There must be at least 2 subScorers"@),
            r matches Ok(d) ==> {
                &&& d.inv()
                &&& d.view().ids.doc == -1
                &&& forall|doc: int| #[trigger]
                    d.view().ids.docs.contains(doc) <==> exists|i: int|
                        0 <= i < sub_scorers@.len()
                            && #[trigger] sub_scorers@[i].view().ids.docs.contains(doc)
                &&& forall|doc: int| #[trigger]
                    d.view().hits.contains(doc) <==> exists|i: int|
                        0 <= i < sub_scorers@.len()
                            && #[trigger] sub_scorers@[i].view().hits.contains(doc)
                &&& d.view().two_phase <==> exists|i: int|
                    0 <= i < sub_scorers@.len() && (#[trigger] sub_scorers@[i]).view().two_phase
                &&& d.view().match_cost == if d.view().two_phase {
                    average_match_cost
                } else {
                    0
                }
                &&& d.needs_scores() == (score_mode != ScoreMode::COMPLETE_NO_SCORES)
                &&& wrap_by_cost(sub_scorers@, d.clauses())
                &&& exists|wraps: int|
                    d.view().cost == total_cost(d.clauses()) + #[trigger] (wraps
                        * 0x1_0000_0000_0000_0000)
                &&& d.infallible() <==> forall|i: int|
                    0 <= i < sub_scorers@.len() ==> #[trigger] sub_scorers@[i].infallible()
            },
    {
        if sub_scorers.len() <= 1 {
            return Err(
                LuceneError::IllegalArgument("There must be at least 2 subScorers".to_owned()),
            );
        }
        let ghost subs = sub_scorers@;
        let num_clauses: usize = sub_scorers.len();
        let needs_scores: bool = score_mode != ScoreMode::COMPLETE_NO_SCORES;
        let mut has_approximation: bool = false;
        let mut wrappers: Vec<DisiWrapper<S>> = Vec::with_capacity(num_clauses);
        for scorer in it: sub_scorers
            invariant
                it.seq() == subs,
                forall|i: int|
                    0 <= i < subs.len() ==> (#[trigger] subs[i]).inv() && subs[i].view().ids.doc
                        == -1,
                wrappers@.len() == it.index(),
                forall|i: int| 0 <= i < wrappers@.len() ==> {
                    &&& (#[trigger] wrappers@[i]).inv()
                    &&& wrappers@[i].scorer == subs[i]
                    &&& wrappers@[i].doc == -1
                },
                has_approximation == any_two_phase(wrappers@),
        {
            let ghost before = wrappers@;
            let w = DisiWrapper::new(scorer, false);
            let two_phase: bool = w.has_two_phase();
            wrappers.push(w);
            proof {
                if any_two_phase(before) {
                    let i = choose|i: int| 0 <= i < before.len() && (#[trigger] before[i]).two_phase;
                    assert(wrappers@[i].two_phase);
                }
                if two_phase {
                    assert(wrappers@[wrappers@.len() - 1].two_phase);
                }
                if any_two_phase(wrappers@) && !two_phase {
                    let i = choose|i: int|
                        0 <= i < wrappers@.len() && (#[trigger] wrappers@[i]).two_phase;
                    assert(before[i].two_phase);
                }
            }
            if two_phase {
                has_approximation = true;
            }
        }
        let ghost ws = wrappers@;
        let approximation = DisjunctionDISIApproximation::new(wrappers, lead_cost);
        let match_cost: i32 = if has_approximation {
            average_match_cost
        } else {
            0
        };
        let r = DisjunctionScorer {
            approximation,
            num_clauses,
            needs_scores,
            has_two_phase: has_approximation,
            match_cost,
            verified_matches: Vec::with_capacity(num_clauses),
            unverified_matches: IndexPriorityQueue::new(num_clauses),
            confirmed: Ghost(Seq::empty()),
        };
        proof {
            let order = choose|order: Seq<usize>|
                #![trigger is_stable_order(by_decreasing_cost(ws), ws.len() as int, order)]
                {
                    &&& is_stable_order(by_decreasing_cost(ws), ws.len() as int, order)
                    &&& r.clauses() == Seq::new(ws.len(), |i: int| ws[order[i] as int])
                };
            lemma_clauses_of_subs(subs, ws, r.clauses(), order);
            assert(scorers_by_decreasing_cost(subs) =~= by_decreasing_cost(ws));
            assert(is_stable_order(scorers_by_decreasing_cost(subs), subs.len() as int, order));
            assert(wrap_by_cost(subs, r.clauses()));
        }
        Ok(r)
    }

    /// Returns the number of clauses.
    pub fn num_clauses(&self) -> (r: usize)
        requires
            self.inv(),
        ensures
            r == self.clauses().len(),
    {
        self.num_clauses
    }

    /// The clauses are those of the iterator over the documents that may match, which fails only
    /// where they do.
    pub proof fn clauses_are_those_of_approximation(&self)
        requires
            self.inv(),
        ensures
            self.approx().inv(),
            self.approx().clauses() == self.clauses(),
            self.approx().infallible() == self.infallible(),
    {
    }

    /// Returns the iterator over the documents that may match.
    pub fn approximation(&self) -> (r: &DisjunctionDISIApproximation<S>)
        requires
            self.inv(),
        ensures
            *r == self.approx(),
            r.inv(),
            r.clauses() == self.clauses(),
    {
        &self.approximation
    }

    /// Returns the clause at `position` in the order of decreasing costs.
    pub fn wrapper(&self, position: usize) -> (r: &DisiWrapper<S>)
        requires
            position < self.clauses().len(),
        ensures
            *r == self.clauses()[position as int],
    {
        self.approximation.wrapper(position)
    }

    /// Returns the positions of the clauses that match the current document.
    ///
    /// With a two-phase view, the current document has to be one that
    /// [`Scorer::matches`] accepted.
    ///
    /// # Errors
    ///
    /// Whatever confirming a clause fails with.
    pub fn sub_matches(&mut self) -> (r: Result<Vec<usize>, LuceneError>)
        requires
            old(self).inv(),
            old(self).view().two_phase ==> old(self).candidates_complete(),
        ensures
            old(self).infallible() ==> r is Ok,
            final(self).infallible() == old(self).infallible(),
            final(self).view() == old(self).view(),
            final(self).needs_scores() == old(self).needs_scores(),
            same_clauses(old(self).clauses(), final(self).clauses()),
            r is Ok ==> final(self).inv(),
            r matches Ok(list) ==> list@ == old(self).matching_clauses(),
            r is Ok && old(self).view().two_phase ==> final(self).candidates_complete(),
    {
        if !self.has_two_phase {
            Ok(self.approximation.top_list())
        } else {
            self.two_phase_sub_matches()
        }
    }

    fn two_phase_sub_matches(&mut self) -> (r: Result<Vec<usize>, LuceneError>)
        requires
            old(self).inv(),
            old(self).view().two_phase,
            old(self).candidates_complete(),
        ensures
            old(self).infallible() ==> r is Ok,
            final(self).infallible() == old(self).infallible(),
            final(self).view() == old(self).view(),
            final(self).needs_scores() == old(self).needs_scores(),
            same_clauses(old(self).clauses(), final(self).clauses()),
            r is Ok ==> final(self).inv(),
            r matches Ok(list) ==> list@ == old(self).matching_clauses(),
            r is Ok ==> final(self).candidates_complete(),
    {
        let ghost doc = self.view().ids.doc;
        let ghost ws0 = self.clauses();
        let ghost u = self.unverified();
        let ghost v = self.verified();
        let unverified: Vec<usize> = copy_of(self.unverified_matches.entries());
        proof {
            assert forall|i: int| 0 <= i < u.len() implies #[trigger] u[i] < ws0.len()
                && ws0[u[i] as int].doc == doc by {
                assert(self.unverified().contains(u[i]));
            }
        }
        let mut i: usize = 0;
        while i < unverified.len()
            invariant
                self.inv(),
                self.infallible() == old(self).infallible(),
                self.view() == old(self).view(),
                self.needs_scores == old(self).needs_scores,
                same_clauses(ws0, self.clauses()),
                ws0 == old(self).clauses(),
                u == old(self).unverified(),
                v == old(self).verified(),
                unverified@ == u,
                doc == self.view().ids.doc,
                0 <= doc < NO_MORE_DOCS,
                i <= u.len(),
                forall|k: int|
                    0 <= k < u.len() ==> #[trigger] u[k] < ws0.len() && ws0[u[k] as int].doc == doc,
                forall|k: int|
                    0 <= k < ws0.len() ==> (#[trigger] self.clauses()[k]).doc == ws0[k].doc,
                self.verified_matches@ == v + matching(u.take(i as int), ws0, doc),
            decreases unverified.len() - i,
        {
            let position: usize = unverified[i];
            let ghost before = *self;
            proof {
                self.approximation.clauses_are_positioned();
                self.lemma_valid();
                assert(u.take(i + 1).drop_last() =~= u.take(i as int));
                assert(u[i as int] == position);
            }
            let confirmed: bool = match self.approximation.confirm(position) {
                Ok(b) => b,
                Err(e) => {
                    proof {
                        lemma_same_hits(before.clauses(), self.clauses());
                        lemma_same_clauses_trans(ws0, before.clauses(), self.clauses());
                    }
                    return Err(e);
                },
            };
            proof {
                lemma_same_hits(before.clauses(), self.clauses());
                lemma_same_clauses_trans(ws0, before.clauses(), self.clauses());
                assert(before.clauses()[position as int].same_clause(&ws0[position as int]));
            }
            if confirmed {
                self.verified_matches.push(position);
                assert(self.verified_matches@ =~= v + matching(u.take(i + 1), ws0, doc));
            }
            i += 1;
        }
        self.unverified_matches.clear();
        let matches: Vec<usize> = reversed(&self.verified_matches);
        proof {
            assert(u.take(u.len() as int) =~= u);
            lemma_same_hits(ws0, self.clauses());
            self.lemma_all_verified(old(self));
        }
        Ok(matches)
    }

    /// Deciding all candidates leaves the matching ones.
    proof fn lemma_all_verified(&self, before: &Self)
        requires
            before.candidates_complete(),
            self.view() == before.view(),
            same_clauses(before.clauses(), self.clauses()),
            self.unverified() == Seq::<usize>::empty(),
            self.verified() == before.verified() + matching(
                before.unverified(),
                before.clauses(),
                before.view().ids.doc,
            ),
        ensures
            self.candidates_complete(),
    {
        let ws = self.clauses();
        let ws0 = before.clauses();
        let doc = self.view().ids.doc;
        let v = before.verified();
        let u = before.unverified();
        let m = matching(u, ws0, doc);
        lemma_matching(u, ws0, doc);
        assert forall|p: usize| p < ws.len() implies (#[trigger] ws[p as int]).scorer.view().hits
            == ws0[p as int].scorer.view().hits by {
            assert(ws[p as int].same_clause(&ws0[p as int]));
        }
        assert forall|p: usize| #[trigger] self.verified().contains(p) <==> v.contains(p)
            || m.contains(p) by {
            lemma_concat_contains(v, m, p);
        }
        assert forall|p: usize|
            #![trigger self.verified().contains(p)]
            #![trigger self.unverified().contains(p)]
            p < ws.len() && ws[p as int].scorer.view().hits.contains(
                doc,
            ) implies self.verified().contains(p) || self.unverified().contains(p) by {
            assert(before.verified().contains(p) || before.unverified().contains(p));
        }
        assert forall|p: usize| #[trigger] self.verified().contains(p) implies p < ws.len()
            && ws[p as int].scorer.view().hits.contains(doc) by {
            if m.contains(p) {
                assert(before.unverified().contains(p));
            }
        }
        let all0 = v + u;
        assert(u.no_duplicates()) by {
            assert forall|a: int, b: int| 0 <= a < b < u.len() implies u[a] != u[b] by {
                assert(all0[v.len() + a] == u[a] && all0[v.len() + b] == u[b]);
            }
        }
        assert(v.no_duplicates()) by {
            assert forall|a: int, b: int| 0 <= a < b < v.len() implies v[a] != v[b] by {
                assert(all0[a] == v[a] && all0[b] == v[b]);
            }
        }
        let all = self.verified() + self.unverified();
        assert(all =~= v + m);
        assert forall|a: int, b: int| 0 <= a < b < all.len() implies all[a] != all[b] by {
            if b < v.len() {
            } else if a >= v.len() {
                assert(all[a] == m[a - v.len()] && all[b] == m[b - v.len()]);
            } else {
                assert(m.contains(all[b])) by {
                    assert(m[b - v.len()] == all[b]);
                }
                let k = choose|k: int| 0 <= k < u.len() && u[k] == all[b];
                assert(all0[a] == all[a] && all0[v.len() + k] == all[b]);
            }
        }
    }

    /// The clauses that [`Self::sub_matches`] lists are those that match the
    /// current document, once each.
    pub proof fn matching_clauses_are_exact(&self, position: usize)
        requires
            self.inv(),
            self.view().two_phase ==> self.candidates_complete(),
            0 <= self.view().ids.doc < NO_MORE_DOCS,
        ensures
            self.matching_clauses().contains(position) <==> {
                &&& position < self.clauses().len()
                &&& self.clauses()[position as int].scorer.view().hits.contains(
                    self.view().ids.doc,
                )
            },
    {
        let ws = self.clauses();
        let doc = self.view().ids.doc;
        self.approximation.clauses_are_positioned();
        if self.has_two_phase {
            let v = self.verified();
            let u = self.unverified();
            let m = matching(u, ws, doc);
            lemma_matching(u, ws, doc);
            lemma_concat_contains(v, m, position);
            let all = v + m;
            if all.reverse().contains(position) {
                let i = choose|i: int| 0 <= i < all.len() && all.reverse()[i] == position;
                assert(all[all.len() - 1 - i] == position);
            }
            if all.contains(position) {
                let i = choose|i: int| 0 <= i < all.len() && all[i] == position;
                assert(all.reverse()[all.len() - 1 - i] == position);
            }
            assert(v.contains(position) || u.contains(position) || true);
            assert(self.verified().contains(position) ==> ws[position as int].scorer.view().hits.contains(doc));
        } else {
            self.approximation.current_list_is_complete(position);
            if position < ws.len() {
                assert(ws[position as int].inv());
                assert(!ws[position as int].two_phase);
                assert(is_first_from(
                    ws[position as int].scorer.view().ids.docs,
                    doc,
                    ws[position as int].doc as int,
                ));
            }
        }
    }

    /// Returns the clauses that match the current document, as children that
    /// should match.
    ///
    /// # Errors
    ///
    /// Whatever confirming a clause fails with.
    pub fn children(&mut self) -> (r: Result<Vec<ChildScorable>, LuceneError>)
        requires
            old(self).inv(),
            old(self).view().two_phase ==> old(self).candidates_complete(),
        ensures
            old(self).infallible() ==> r is Ok,
            final(self).infallible() == old(self).infallible(),
            final(self).view() == old(self).view(),
            final(self).needs_scores() == old(self).needs_scores(),
            same_clauses(old(self).clauses(), final(self).clauses()),
            r is Ok && old(self).view().two_phase ==> final(self).candidates_complete(),
            r is Ok ==> final(self).inv(),
            r matches Ok(children) ==> {
                &&& children@.len() == old(self).matching_clauses().len()
                &&& forall|i: int|
                    0 <= i < children@.len() ==> (#[trigger] children@[i]).child == old(
                        self,
                    ).matching_clauses()[i] && children@[i].relationship@ == "SHOULD"@
            },
    {
        let matches = self.sub_matches()?;
        let mut children: Vec<ChildScorable> = Vec::with_capacity(matches.len());
        let mut i: usize = 0;
        while i < matches.len()
            invariant
                i <= matches@.len(),
                children@.len() == i,
                forall|j: int|
                    0 <= j < i ==> (#[trigger] children@[j]).child == matches@[j]
                        && children@[j].relationship@ == "SHOULD"@,
            decreases matches.len() - i,
        {
            children.push(ChildScorable { child: matches[i], relationship: "SHOULD".to_owned() });
            i += 1;
        }
        Ok(children)
    }

    /// Advances to the next document that matches and returns it.
    ///
    /// # Errors
    ///
    /// Whatever reading or confirming a document fails with.
    pub fn next_doc(&mut self) -> (r: Result<i32, LuceneError>)
        requires
            old(self).inv(),
            old(self).view().ids.doc < NO_MORE_DOCS,
        ensures
            old(self).infallible() ==> r is Ok,
            final(self).infallible() == old(self).infallible(),
            final(self).needs_scores() == old(self).needs_scores(),
            r matches Ok(d) ==> {
                &&& final(self).inv()
                &&& same_clauses(old(self).clauses(), final(self).clauses())
                &&& d < NO_MORE_DOCS && old(self).view().two_phase && old(self).needs_scores()
                    ==> final(self).candidates_complete()
                &&& final(self).view() == old(self).view().at(d as int)
                &&& is_first_from(
                    old(self).view().hits,
                    old(self).view().ids.doc + 1,
                    d as int,
                )
            },
    {
        proof {
            self.lemma_valid();
        }
        let doc: i32 = self.next_approximation()?;
        if self.has_two_phase {
            self.confirm(doc, Ghost(old(self).view().ids.doc + 1))
        } else {
            Ok(doc)
        }
    }

    /// Advances to the first document at or after `target` that matches and
    /// returns it.
    ///
    /// # Errors
    ///
    /// Whatever reading or confirming a document fails with.
    pub fn advance(&mut self, target: i32) -> (r: Result<i32, LuceneError>)
        requires
            old(self).inv(),
            old(self).view().ids.doc < target,
        ensures
            old(self).infallible() ==> r is Ok,
            final(self).infallible() == old(self).infallible(),
            final(self).needs_scores() == old(self).needs_scores(),
            r matches Ok(d) ==> {
                &&& final(self).inv()
                &&& same_clauses(old(self).clauses(), final(self).clauses())
                &&& d < NO_MORE_DOCS && old(self).view().two_phase && old(self).needs_scores()
                    ==> final(self).candidates_complete()
                &&& final(self).view() == old(self).view().at(d as int)
                &&& is_first_from(old(self).view().hits, target as int, d as int)
            },
    {
        proof {
            self.lemma_valid();
        }
        let doc: i32 = self.advance_approximation(target)?;
        if self.has_two_phase {
            self.confirm(doc, Ghost(target as int))
        } else {
            Ok(doc)
        }
    }

    /// Steps over the documents that do not match, from `first` on.
    fn confirm(&mut self, first: i32, Ghost(target): Ghost<int>) -> (r: Result<i32, LuceneError>)
        requires
            old(self).inv(),
            old(self).view().valid(),
            old(self).view().ids.doc == first,
            is_first_from(old(self).view().ids.docs, target, first as int),
        ensures
            old(self).infallible() ==> r is Ok,
            final(self).infallible() == old(self).infallible(),
            final(self).needs_scores() == old(self).needs_scores(),
            r matches Ok(d) ==> {
                &&& final(self).inv()
                &&& same_clauses(old(self).clauses(), final(self).clauses())
                &&& d < NO_MORE_DOCS && old(self).view().two_phase && old(self).needs_scores()
                    ==> final(self).candidates_complete()
                &&& final(self).view() == old(self).view().at(d as int)
                &&& is_first_from(old(self).view().hits, target, d as int)
            },
    {
        let ghost docs = old(self).view().ids.docs;
        let ghost hits = old(self).view().hits;
        let mut doc: i32 = first;
        proof {
            first_from_in_range(old(self).view().ids, target, first as int);
        }
        loop
            invariant
                self.inv(),
                self.infallible() == old(self).infallible(),
                self.needs_scores() == old(self).needs_scores(),
                same_clauses(old(self).clauses(), self.clauses()),
                self.view() == old(self).view().at(doc as int),
                old(self).view().valid(),
                docs == old(self).view().ids.docs,
                hits == old(self).view().hits,
                0 <= first <= doc,
                doc == NO_MORE_DOCS || (docs.contains(doc as int) && doc >= target),
                forall|d: int| #[trigger] docs.contains(d) && target <= d < doc ==> !hits.contains(d),
            decreases NO_MORE_DOCS - doc,
        {
            if doc == NO_MORE_DOCS {
                assert forall|d: int| #[trigger] hits.contains(d) implies d < target by {
                    assert(docs.contains(d));
                }
                return Ok(NO_MORE_DOCS);
            }
            let ghost before = self.clauses();
            let matched: bool = self.two_phase_matches()?;
            let ghost decided = self.clauses();
            proof {
                lemma_same_clauses_trans(old(self).clauses(), before, decided);
            }
            if matched {
                assert forall|d: int| #[trigger] hits.contains(d) && d >= target implies d >= doc by {
                    assert(docs.contains(d));
                }
                return Ok(doc);
            }
            doc = self.next_approximation()?;
            proof {
                lemma_same_clauses_trans(old(self).clauses(), decided, self.clauses());
            }
        }
    }
}

proof fn lemma_concat_contains(a: Seq<usize>, b: Seq<usize>, p: usize)
    ensures
        (a + b).contains(p) <==> a.contains(p) || b.contains(p),
{
    let c = a + b;
    if c.contains(p) {
        let i = choose|i: int| 0 <= i < c.len() && c[i] == p;
        if i < a.len() {
            assert(a[i] == p);
        } else {
            assert(b[i - a.len()] == p);
        }
    }
    if a.contains(p) {
        let i = choose|i: int| 0 <= i < a.len() && a[i] == p;
        assert(c[i] == p);
    }
    if b.contains(p) {
        let i = choose|i: int| 0 <= i < b.len() && b[i] == p;
        assert(c[a.len() + i] == p);
    }
}

fn copy_of(s: &[usize]) -> (r: Vec<usize>)
    ensures
        r@ == s@,
{
    let mut r: Vec<usize> = Vec::with_capacity(s.len());
    let mut i: usize = 0;
    while i < s.len()
        invariant
            i <= s@.len(),
            r@ =~= s@.take(i as int),
        decreases s.len() - i,
    {
        r.push(s[i]);
        i += 1;
    }
    r
}

fn reversed(v: &Vec<usize>) -> (r: Vec<usize>)
    ensures
        r@ == v@.reverse(),
{
    let mut r: Vec<usize> = Vec::with_capacity(v.len());
    let mut i: usize = v.len();
    while i > 0
        invariant
            i <= v@.len(),
            r@ =~= v@.reverse().take(v@.len() - i),
        decreases i,
    {
        i -= 1;
        r.push(v[i]);
    }
    r
}

/// Sorting the wrappers of the sub-scorers keeps what they match together.
proof fn lemma_clauses_of_subs<S: Scorer>(
    subs: Seq<S>,
    ws: Seq<DisiWrapper<S>>,
    cs: Seq<DisiWrapper<S>>,
    order: Seq<usize>,
)
    requires
        ws.len() == subs.len(),
        ws.len() < i32::MAX,
        forall|i: int| 0 <= i < ws.len() ==> (#[trigger] ws[i]).inv() && ws[i].scorer == subs[i],
        is_stable_order(by_decreasing_cost(ws), ws.len() as int, order),
        cs == Seq::new(ws.len(), |i: int| ws[order[i] as int]),
    ensures
        forall|d: int| #[trigger]
            union_docs(ws).contains(d) <==> exists|i: int|
                0 <= i < subs.len() && #[trigger] subs[i].view().ids.docs.contains(d),
        forall|d: int| #[trigger]
            union_hits(cs).contains(d) <==> exists|i: int|
                0 <= i < subs.len() && #[trigger] subs[i].view().hits.contains(d),
        any_two_phase(cs) == any_two_phase(ws),
        any_two_phase(cs) <==> exists|i: int|
            0 <= i < subs.len() && (#[trigger] subs[i]).view().two_phase,
        (forall|i: int| 0 <= i < ws.len() ==> #[trigger] ws[i].scorer.infallible()) <==> (forall|
            i: int,
        |
            0 <= i < subs.len() ==> #[trigger] subs[i].infallible()),
{
    let n = subs.len() as int;
    assert forall|d: int| #[trigger] union_docs(ws).contains(d) <==> exists|i: int|
        0 <= i < n && #[trigger] subs[i].view().ids.docs.contains(d) by {
        if union_docs(ws).contains(d) {
            let i = choose|i: int|
                0 <= i < n && #[trigger] ws[i].scorer.view().ids.docs.contains(d);
            assert(subs[i].view().ids.docs.contains(d));
        }
        if exists|i: int| 0 <= i < n && #[trigger] subs[i].view().ids.docs.contains(d) {
            let i = choose|i: int| 0 <= i < n && #[trigger] subs[i].view().ids.docs.contains(d);
            assert(ws[i].scorer.view().ids.docs.contains(d));
        }
    }
    assert forall|d: int| #[trigger] union_hits(cs).contains(d) <==> exists|i: int|
        0 <= i < n && #[trigger] subs[i].view().hits.contains(d) by {
        if union_hits(cs).contains(d) {
            let i = choose|i: int| 0 <= i < n && #[trigger] cs[i].scorer.view().hits.contains(d);
            assert(subs[order[i] as int].view().hits.contains(d)) by {
                assert(cs[i] == ws[order[i] as int]);
            }
        }
        if exists|i: int| 0 <= i < n && #[trigger] subs[i].view().hits.contains(d) {
            let i = choose|i: int| 0 <= i < n && #[trigger] subs[i].view().hits.contains(d);
            assert(order.contains(i as usize));
            let j = choose|j: int| 0 <= j < order.len() && order[j] == i as usize;
            assert(cs[j] == ws[i]);
            assert(cs[j].scorer.view().hits.contains(d));
        }
    }
    if any_two_phase(cs) {
        let i = choose|i: int| 0 <= i < n && (#[trigger] cs[i]).two_phase;
        assert(cs[i] == ws[order[i] as int]);
        assert(ws[order[i] as int].two_phase);
        assert(subs[order[i] as int].view().two_phase);
    }
    if any_two_phase(ws) {
        let i = choose|i: int| 0 <= i < n && (#[trigger] ws[i]).two_phase;
        assert(order.contains(i as usize));
        let j = choose|j: int| 0 <= j < order.len() && order[j] == i as usize;
        assert(cs[j] == ws[i]);
    }
    if exists|i: int| 0 <= i < n && (#[trigger] subs[i]).view().two_phase {
        let i = choose|i: int| 0 <= i < n && (#[trigger] subs[i]).view().two_phase;
        assert(ws[i].two_phase);
    }
    if forall|i: int| 0 <= i < n ==> #[trigger] ws[i].scorer.infallible() {
        assert forall|i: int| 0 <= i < n implies #[trigger] subs[i].infallible() by {
            assert(ws[i].scorer.infallible());
        }
    }
    if forall|i: int| 0 <= i < n ==> #[trigger] subs[i].infallible() {
        assert forall|i: int| 0 <= i < n implies #[trigger] ws[i].scorer.infallible() by {
            assert(subs[i].infallible());
        }
    }
}

impl<S: BlockScorer> DisjunctionScorer<S> {
    /// Tells the clause that was supplied at position `i` to look ahead to `target`, and returns
    /// the last document of the block that `target` is in. No clause moves.
    ///
    /// # Errors
    ///
    /// Whatever reading the scores of the clause fails with.
    pub fn advance_shallow_of(&mut self, i: usize, target: i32) -> (r: Result<i32, LuceneError>)
        requires
            old(self).inv(),
            i < old(self).clauses().len(),
        ensures
            final(self).inv(),
            final(self).view() == old(self).view(),
            final(self).confirmed() == old(self).confirmed(),
            final(self).infallible() == old(self).infallible(),
            final(self).needs_scores() == old(self).needs_scores(),
            final(self).verified() == old(self).verified(),
            final(self).unverified() == old(self).unverified(),
            final(self).approx().supplied_order() == old(self).approx().supplied_order(),
            ({
                let p = old(self).approx().supplied_order()[i as int] as int;
                let before = old(self).clauses()[p];
                let after = final(self).clauses()[p];
                &&& final(self).clauses() == old(self).clauses().update(
                    p,
                    DisiWrapper { scorer: after.scorer, ..before },
                )
                &&& looked_ahead(before.scorer, after.scorer, target, r)
            }),
    {
        let r = self.approximation.advance_shallow(i, target);
        proof {
            old(self).approximation.clauses_are_positioned();
            let ws0 = old(self).clauses();
            let ws = self.clauses();
            assert(same_clauses(ws0, ws)) by {
                assert forall|k: int| 0 <= k < ws0.len() implies (#[trigger] ws[k]).same_clause(
                    &ws0[k],
                ) by {}
            }
            lemma_same_hits(ws0, ws);
        }
        r
    }
}

} // verus!
