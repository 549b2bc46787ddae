//! Finding exact phrases: terms at given distances from each other.

use vstd::prelude::*;
use vstd::set_lib::{lemma_len_subset, lemma_map_size_bound};
use vstd::string::*;

use crate::error::LuceneError;
use crate::search::score_mode::ScoreMode;
use crate::util::heap::{
    heap_root_is_least, is_heap, lesser_child, parent, refines, sift_down, sift_up, swapped,
};
use crate::util::priority_queue::{operations_keep_items, PriorityQueue};
use crate::util::slots::{order_of, SlotOrder};

verus! {

/// Positions are not negative and do not decrease.
pub open spec fn sorted_positions(s: Seq<i32>) -> bool {
    &&& forall|i: int| 0 <= i < s.len() ==> #[trigger] s[i] >= 0
    &&& forall|i: int, k: int| 0 <= i <= k < s.len() ==> s[i] <= s[k]
}

/// The positions of a term in the current document, which do not decrease.
pub trait PositionsEnum {
    /// The positions.
    spec fn positions(&self) -> Seq<i32>;

    /// How many positions have been read.
    spec fn taken(&self) -> int;

    /// The offsets of the last position that was read.
    spec fn offsets(&self) -> (i32, i32);

    /// The internal invariant of the implementation.
    spec fn inv(&self) -> bool;

    /// Whether reading never fails.
    spec fn infallible(&self) -> bool;

    /// Returns the number of positions.
    ///
    /// # Errors
    ///
    /// Whatever reading the positions fails with.
    fn freq(&self) -> (r: Result<i32, LuceneError>)
        requires
            self.inv(),
        ensures
            self.infallible() ==> r is Ok,
            r matches Ok(n) ==> n == self.positions().len() && sorted_positions(self.positions()),
    ;

    /// Reads the next position.
    ///
    /// # Errors
    ///
    /// Whatever reading the positions fails with.
    fn next_position(&mut self) -> (r: Result<i32, LuceneError>)
        requires
            old(self).inv(),
            0 <= old(self).taken() < old(self).positions().len(),
        ensures
            old(self).infallible() ==> r is Ok,
            final(self).infallible() == old(self).infallible(),
            final(self).positions() == old(self).positions(),
            r matches Ok(p) ==> {
                &&& final(self).inv()
                &&& final(self).taken() == old(self).taken() + 1
                &&& p == old(self).positions()[old(self).taken()]
            },
    ;

    /// Returns the offset at which the last position that was read starts.
    fn start_offset(&self) -> (r: i32)
        requires
            self.inv(),
        ensures
            r == self.offsets().0,
    ;

    /// Returns the offset at which the last position that was read ends.
    fn end_offset(&self) -> (r: i32)
        requires
            self.inv(),
        ensures
            r == self.offsets().1,
    ;
}

/// A term of a phrase and its current position.
pub struct PostingsAndPosition<P> {
    /// The positions of the term.
    pub postings: P,
    /// The place of the term in the phrase.
    pub offset: i32,
    /// The number of positions.
    pub freq: i32,
    /// The number of positions that have been read.
    pub up_to: i32,
    /// The current position; -1 before the first one.
    pub pos: i32,
}

impl<P: PositionsEnum> PostingsAndPosition<P> {
    /// The positions, with the one before the first.
    pub open spec fn reached(&self) -> Seq<i32> {
        seq![-1i32] + self.postings.positions()
    }

    /// The current position is the last one that was read.
    pub open spec fn wf(&self) -> bool {
        &&& self.postings.inv()
        &&& 0 <= self.up_to <= self.freq
        &&& self.freq == self.postings.positions().len()
        &&& self.up_to == self.postings.taken()
        &&& self.pos == self.reached()[self.up_to as int]
        &&& sorted_positions(self.postings.positions())
    }

    /// Nothing but the position has changed.
    pub open spec fn same_term(&self, other: Self) -> bool {
        &&& self.offset == other.offset
        &&& self.freq == other.freq
        &&& self.postings.positions() == other.postings.positions()
        &&& self.postings.infallible() == other.postings.infallible()
    }
}

/// Moves to the first position at or after `target` that has not been passed;
/// returns whether there is one.
///
/// # Errors
///
/// Whatever reading the positions fails with.
fn advance_position<P: PositionsEnum>(posting: &mut PostingsAndPosition<P>, target: i64) -> (r:
    Result<bool, LuceneError>)
    requires
        old(posting).wf(),
    ensures
        old(posting).postings.infallible() ==> r is Ok,
        final(posting).same_term(*old(posting)),
        r matches Ok(found) ==> {
            &&& final(posting).wf()
            &&& final(posting).up_to >= old(posting).up_to
            &&& forall|i: int|
                old(posting).up_to <= i < final(posting).up_to ==> #[trigger] old(
                    posting,
                ).reached()[i] < target
            &&& found ==> final(posting).pos >= target
            &&& !found ==> final(posting).pos < target && final(posting).up_to
                == final(posting).freq
        },
{
    while (posting.pos as i64) < target
        invariant
            posting.wf(),
            posting.same_term(*old(posting)),
            posting.up_to >= old(posting).up_to,
            forall|i: int|
                old(posting).up_to <= i < posting.up_to ==> #[trigger] old(posting).reached()[i]
                    < target,
        decreases posting.freq - posting.up_to,
    {
        if posting.up_to == posting.freq {
            return Ok(false);
        }
        let ghost before = *posting;
        match posting.postings.next_position() {
            Ok(p) => {
                posting.pos = p;
            },
            Err(e) => {
                return Err(e);
            },
        }
        posting.up_to = posting.up_to + 1;
        assert(posting.reached() =~= before.reached());
    }
    Ok(true)
}

/// Finds the places at which the terms of a phrase are at the given distances from
/// each other.
pub struct ExactPhraseMatcher<P> {
    /// The terms.
    pub postings: Vec<PostingsAndPosition<P>>,
    /// Whether documents that cannot have a competitive score are skipped.
    pub use_impacts: bool,
    /// Whether the numbers of positions have been read for the current document.
    pub freqs_loaded: bool,
    /// The cost of confirming one document, as an integer that is ordered like it.
    pub match_cost: i32,
}

/// Whether a term is at the place that it has in the phrase when the first term is
/// at position `x`.
pub open spec fn in_place<P: PositionsEnum>(
    lead: PostingsAndPosition<P>,
    other: PostingsAndPosition<P>,
    x: int,
) -> bool {
    exists|i: int|
        0 <= i < other.postings.positions().len() && #[trigger] other.postings.positions()[i] == x
            - lead.offset + other.offset
}

/// Whether the phrase is where the first term is at position `x`.
pub open spec fn phrase_at<P: PositionsEnum>(postings: Seq<PostingsAndPosition<P>>, x: int) -> bool {
    forall|j: int| 1 <= j < postings.len() ==> in_place(postings[0], #[trigger] postings[j], x)
}

/// Whether the terms are the same, whatever their current positions.
pub open spec fn same_terms<P: PositionsEnum>(
    a: Seq<PostingsAndPosition<P>>,
    b: Seq<PostingsAndPosition<P>>,
) -> bool {
    &&& a.len() == b.len()
    &&& forall|j: int| 0 <= j < a.len() ==> (#[trigger] b[j]).same_term(a[j])
}

/// The current position of a term has not passed the place that it has when the first
/// term is at position `x`.
spec fn not_passed<P: PositionsEnum>(
    lead: PostingsAndPosition<P>,
    other: PostingsAndPosition<P>,
    x: int,
) -> bool {
    forall|k: int|
        1 <= k < other.up_to ==> #[trigger] other.reached()[k] < x - lead.offset + other.offset
}

impl<P: PositionsEnum> ExactPhraseMatcher<P> {
    /// The terms are at positions that have been read, and none has passed its place.
    pub closed spec fn wf(&self) -> bool {
        &&& self.postings@.len() > 0
        &&& forall|j: int| 0 <= j < self.postings@.len() ==> (#[trigger] self.postings@[j]).wf()
        &&& forall|j: int|
            1 <= j < self.postings@.len() ==> not_passed(
                self.postings@[0],
                #[trigger] self.postings@[j],
                self.postings@[0].pos as int,
            )
    }

    /// Whether reading never fails.
    pub open spec fn infallible(&self) -> bool {
        forall|j: int|
            0 <= j < self.postings@.len() ==> (#[trigger] self.postings@[j]).postings.infallible()
    }

    /// Creates a matcher for the given terms, each with its place in the phrase.
    ///
    /// # Errors
    ///
    /// [`LuceneError::IllegalArgument`] with fewer than two terms.
    pub fn new(postings: Vec<(P, i32)>, score_mode: ScoreMode, match_cost: i32) -> (r: Result<
        Self,
        LuceneError,
    >)
        ensures
            r is Ok <==> postings@.len() >= 2,
            r matches Err(e) ==> e.is_illegal_argument(
                "Cannot make a ConjunctionDISI of less than 2 iterators"@,
            ),
            r matches Ok(matcher) ==> {
                &&& matcher.use_impacts == (score_mode == ScoreMode::TOP_SCORES)
                &&& !matcher.freqs_loaded
                &&& matcher.match_cost == match_cost
                &&& matcher.postings@ == postings@.map_values(
                    |p: (P, i32)|
                        PostingsAndPosition {
                            postings: p.0,
                            offset: p.1,
                            freq: 0i32,
                            up_to: 0i32,
                            pos: -1i32,
                        },
                )
            },
    {
        if postings.len() < 2 {
            return Err(
                LuceneError::IllegalArgument(
                    "Cannot make a ConjunctionDISI of less than 2 iterators".to_owned(),
                ),
            );
        }
        let ghost all = postings@;
        let mut terms: Vec<PostingsAndPosition<P>> = Vec::with_capacity(postings.len());
        for posting in it: postings
            invariant
                it.seq() == all,
                terms@ =~= all.take(it.index() as int).map_values(
                    |p: (P, i32)|
                        PostingsAndPosition {
                            postings: p.0,
                            offset: p.1,
                            freq: 0i32,
                            up_to: 0i32,
                            pos: -1i32,
                        },
                ),
        {
            let (postings, offset) = posting;
            terms.push(PostingsAndPosition { postings, offset, freq: 0, up_to: 0, pos: -1 });
        }
        assert(all.take(all.len() as int) =~= all);
        Ok(
            ExactPhraseMatcher {
                postings: terms,
                use_impacts: score_mode == ScoreMode::TOP_SCORES,
                freqs_loaded: false,
                match_cost,
            },
        )
    }

    /// Reads the numbers of positions in the current document, and returns the least
    /// one: the phrase is not in the document more often.
    ///
    /// # Errors
    ///
    /// Whatever reading the positions fails with.
    pub fn max_freq(&mut self) -> (r: Result<i32, LuceneError>)
        requires
            old(self).postings@.len() > 0,
            forall|j: int|
                0 <= j < old(self).postings@.len() ==> (#[trigger] old(
                    self,
                ).postings@[j]).postings.inv(),
        ensures
            old(self).infallible() ==> r is Ok,
            final(self).postings@.len() == old(self).postings@.len(),
            final(self).use_impacts == old(self).use_impacts,
            final(self).match_cost == old(self).match_cost,
            r matches Ok(least) ==> {
                &&& final(self).freqs_loaded
                &&& forall|j: int|
                    0 <= j < final(self).postings@.len() ==> #[trigger] final(self).postings@[j]
                        == (PostingsAndPosition {
                        freq: old(self).postings@[j].postings.positions().len() as i32,
                        ..old(self).postings@[j]
                    }) && final(self).postings@[j].freq
                        == old(self).postings@[j].postings.positions().len()
                        && sorted_positions(old(self).postings@[j].postings.positions())
                &&& exists|j: int|
                    0 <= j < old(self).postings@.len() && least == (#[trigger] old(
                        self,
                    ).postings@[j]).postings.positions().len()
                &&& forall|j: int|
                    0 <= j < old(self).postings@.len() ==> least <= (#[trigger] old(
                        self,
                    ).postings@[j]).postings.positions().len()
            },
    {
        let ghost terms = self.postings@;
        let n: usize = self.postings.len();
        let mut min_freq: i32 = self.postings[0].postings.freq()?;
        self.postings[0].freq = min_freq;
        assert(least_of(terms, 1, min_freq)) by {
            assert(terms[0].postings.positions().len() == min_freq);
        }
        let mut i: usize = 1;
        while i < n
            invariant
                n == self.postings@.len(),
                n == terms.len(),
                terms == old(self).postings@,
                1 <= i <= n,
                self.use_impacts == old(self).use_impacts,
                self.match_cost == old(self).match_cost,
                forall|j: int| 0 <= j < n ==> (#[trigger] terms[j]).postings.inv(),
                forall|j: int|
                    0 <= j < i ==> #[trigger] self.postings@[j] == (PostingsAndPosition {
                        freq: terms[j].postings.positions().len() as i32,
                        ..terms[j]
                    }) && self.postings@[j].freq == terms[j].postings.positions().len()
                        && sorted_positions(terms[j].postings.positions()),
                forall|j: int| i <= j < n ==> #[trigger] self.postings@[j] == terms[j],
                least_of(terms, i as int, min_freq),
            decreases n - i,
        {
            assert(self.postings@[i as int] == terms[i as int]);
            let f: i32 = self.postings[i].postings.freq()?;
            self.postings[i].freq = f;
            if f < min_freq {
                min_freq = f;
            }
            assert(least_of(terms, i + 1, min_freq)) by {
                assert(terms[i as int].postings.positions().len() == f);
            }
            i += 1;
        }
        self.freqs_loaded = true;
        Ok(min_freq)
    }

    /// Goes back before the first positions of the terms in the current document,
    /// of which none has been read. The numbers of positions are read, unless they
    /// have been.
    ///
    /// # Errors
    ///
    /// Whatever reading the positions fails with.
    pub fn reset_positions(&mut self) -> (r: Result<(), LuceneError>)
        requires
            old(self).postings@.len() > 0,
            forall|j: int|
                0 <= j < old(self).postings@.len() ==> (#[trigger] old(
                    self,
                ).postings@[j]).postings.inv() && old(self).postings@[j].postings.taken() == 0,
            old(self).freqs_loaded ==> forall|j: int|
                0 <= j < old(self).postings@.len() ==> (#[trigger] old(self).postings@[j]).freq
                    == old(self).postings@[j].postings.positions().len() && sorted_positions(
                    old(self).postings@[j].postings.positions(),
                ),
        ensures
            old(self).freqs_loaded || old(self).infallible() ==> r is Ok,
            final(self).postings@.len() == old(self).postings@.len(),
            final(self).use_impacts == old(self).use_impacts,
            final(self).match_cost == old(self).match_cost,
            !final(self).freqs_loaded,
            r is Ok ==> {
                &&& final(self).wf()
                &&& forall|j: int|
                    0 <= j < final(self).postings@.len() ==> {
                        let now = #[trigger] final(self).postings@[j];
                        let was = old(self).postings@[j];
                        &&& now.postings == was.postings
                        &&& now.offset == was.offset
                        &&& now.freq == was.postings.positions().len()
                        &&& now.up_to == 0
                        &&& now.pos == -1
                    }
            },
    {
        let ghost terms = self.postings@;
        let loaded: bool = self.freqs_loaded;
        self.freqs_loaded = false;
        let n: usize = self.postings.len();
        let mut i: usize = 0;
        while i < n
            invariant
                n == self.postings@.len(),
                n == terms.len(),
                terms == old(self).postings@,
                loaded == old(self).freqs_loaded,
                i <= n,
                !self.freqs_loaded,
                self.use_impacts == old(self).use_impacts,
                self.match_cost == old(self).match_cost,
                forall|j: int|
                    0 <= j < n ==> (#[trigger] terms[j]).postings.inv()
                        && terms[j].postings.taken() == 0,
                loaded ==> forall|j: int|
                    0 <= j < n ==> (#[trigger] terms[j]).freq == terms[j].postings.positions().len()
                        && sorted_positions(terms[j].postings.positions()),
                forall|j: int|
                    0 <= j < i ==> {
                        let now = #[trigger] self.postings@[j];
                        let was = terms[j];
                        &&& now.postings == was.postings
                        &&& now.offset == was.offset
                        &&& now.freq == was.postings.positions().len()
                        &&& now.up_to == 0
                        &&& now.pos == -1
                        &&& sorted_positions(was.postings.positions())
                    },
                forall|j: int| i <= j < n ==> #[trigger] self.postings@[j] == terms[j],
            decreases n - i,
        {
            assert(self.postings@[i as int] == terms[i as int]);
            if !loaded {
                let f: i32 = self.postings[i].postings.freq()?;
                self.postings[i].freq = f;
            }
            self.postings[i].pos = -1;
            self.postings[i].up_to = 0;
            i += 1;
        }
        proof {
            assert forall|j: int| 0 <= j < n implies (#[trigger] self.postings@[j]).wf() by {
                assert(terms[j].postings.inv());
            }
        }
        Ok(())
    }

    /// Moves to the next place of the phrase in the current document; returns whether
    /// there is one.
    ///
    /// # Errors
    ///
    /// Whatever reading the positions fails with.
    pub fn next_match(&mut self) -> (r: Result<bool, LuceneError>)
        requires
            old(self).wf(),
        ensures
            old(self).infallible() ==> r is Ok,
            same_terms(old(self).postings@, final(self).postings@),
            final(self).use_impacts == old(self).use_impacts,
            final(self).freqs_loaded == old(self).freqs_loaded,
            final(self).match_cost == old(self).match_cost,
            r matches Ok(found) ==> {
                let lead = old(self).postings@[0];
                let end = final(self).postings@[0].up_to;
                &&& final(self).wf()
                &&& end >= lead.up_to
                &&& forall|k: int|
                    lead.up_to < k < end ==> !phrase_at(
                        old(self).postings@,
                        #[trigger] lead.reached()[k] as int,
                    )
                &&& found ==> {
                    &&& end > lead.up_to
                    &&& final(self).postings@[0].pos == lead.reached()[end as int]
                    &&& phrase_at(old(self).postings@, lead.reached()[end as int] as int)
                    &&& forall|j: int|
                        1 <= j < final(self).postings@.len() ==> (
                        #[trigger] final(self).postings@[j]).pos
                            == final(self).postings@[0].pos - lead.offset
                            + final(self).postings@[j].offset
                }
                &&& !found ==> forall|k: int|
                    lead.up_to < k < lead.reached().len() ==> !phrase_at(
                        old(self).postings@,
                        #[trigger] lead.reached()[k] as int,
                    )
            },
    {
        let ghost terms = self.postings@;
        let n: usize = self.postings.len();
        let ghost lead0 = self.postings@[0];
        proof {
            lemma_same_terms_refl(terms);
        }
        if self.postings[0].up_to >= self.postings[0].freq {
            return Ok(false);
        }
        let moved = step(&mut self.postings[0]);
        proof {
            lemma_same_terms_update(terms, terms, 0, self.postings@[0]);
            assert(self.postings@ =~= terms.update(0, self.postings@[0]));
        }
        match moved {
            Ok(()) => {},
            Err(e) => {
                return Err(e);
            },
        }
        let mut j: usize = 1;
        while j < n
            invariant
                n == terms.len(),
                1 <= j <= n,
                terms == old(self).postings@,
                lead0 == terms[0],
                self.use_impacts == old(self).use_impacts,
                self.freqs_loaded == old(self).freqs_loaded,
                self.match_cost == old(self).match_cost,
                self.wf(),
                same_terms(terms, self.postings@),
                old(self).infallible() ==> self.infallible(),
                self.postings@[0].up_to > lead0.up_to,
                forall|k: int|
                    lead0.up_to < k < self.postings@[0].up_to ==> !phrase_at(
                        terms,
                        #[trigger] lead0.reached()[k] as int,
                    ),
                forall|i: int|
                    1 <= i < j ==> 0 <= (#[trigger] self.postings@[i]).pos
                        == self.postings@[0].pos - lead0.offset + self.postings@[i].offset,
            decreases self.postings@[0].freq - self.postings@[0].up_to, n - j,
        {
            let ghost now = self.postings@;
            assert(now[0].same_term(terms[0]) && now[j as int].same_term(terms[j as int]));
            let phrase_pos: i64 = self.postings[0].pos as i64 - self.postings[0].offset as i64;
            let expected: i64 = phrase_pos + self.postings[j].offset as i64;
            // A place before the start of the document is one that the term does not have.
            let wanted: i64 = if expected < 0 {
                0
            } else {
                expected
            };
            let advanced = advance_position(&mut self.postings[j], wanted);
            let ghost then = self.postings@;
            proof {
                assert(then =~= now.update(j as int, then[j as int]));
                lemma_same_terms_update(terms, now, j as int, then[j as int]);
            }
            match advanced {
                Err(e) => {
                    return Err(e);
                },
                Ok(found) => {
                    proof {
                        lemma_all_wf(now, then, j as int, expected as int);
                    }
                    if !found {
                        proof {
                            assert forall|k: int|
                                lead0.up_to < k < lead0.reached().len() implies !phrase_at(
                                terms,
                                #[trigger] lead0.reached()[k] as int,
                            ) by {
                                if k >= then[0].up_to {
                                    assert(then[0].reached() =~= lead0.reached());
                                    lemma_reached_sorted(then[0], then[0].up_to as int, k);
                                    lemma_not_at(
                                        terms,
                                        then,
                                        j as int,
                                        then[0].pos as int,
                                        lead0.reached()[k] as int,
                                    );
                                }
                            }
                        }
                        return Ok(false);
                    }
                },
            }
            if self.postings[j].pos as i64 != expected {
                let target: i64 = self.postings[j].pos as i64 - self.postings[j].offset as i64
                    + self.postings[0].offset as i64;
                let found = advance_position(&mut self.postings[0], target);
                let ghost last = self.postings@;
                proof {
                    assert(last =~= then.update(0, last[0]));
                    lemma_same_terms_update(terms, then, 0, last[0]);
                    assert(then[0].reached() =~= lead0.reached());
                    assert(last[0].reached() =~= lead0.reached());
                    assert forall|k: int|
                        then[0].up_to <= k < lead0.reached().len() && lead0.reached()[k]
                            < target implies !phrase_at(
                        terms,
                        #[trigger] lead0.reached()[k] as int,
                    ) by {
                        lemma_reached_sorted(then[0], then[0].up_to as int, k);
                        lemma_not_at(
                            terms,
                            then,
                            j as int,
                            then[0].pos as int,
                            lead0.reached()[k] as int,
                        );
                    }
                }
                match found {
                    Err(e) => {
                        return Err(e);
                    },
                    Ok(found) => {
                        proof {
                            lemma_reached_sorted(
                                last[0],
                                then[0].up_to as int,
                                last[0].up_to as int,
                            );
                            assert forall|i: int| 1 <= i < n implies not_passed(
                                last[0],
                                #[trigger] last[i],
                                last[0].pos as int,
                            ) by {
                                lemma_still_not_passed(then[0], last[0], then[i]);
                            }
                            assert forall|i: int| 0 <= i < n implies (#[trigger] last[i]).wf() by {
                                assert(i > 0 ==> last[i] == then[i]);
                            }
                            assert(self.wf());
                            assert forall|k: int|
                                lead0.up_to < k < last[0].up_to implies !phrase_at(
                                terms,
                                #[trigger] lead0.reached()[k] as int,
                            ) by {
                                if k >= then[0].up_to {
                                    assert(then[0].reached()[k] < target);
                                }
                            }
                            if !found {
                                assert forall|k: int|
                                    lead0.up_to < k < lead0.reached().len() implies !phrase_at(
                                    terms,
                                    #[trigger] lead0.reached()[k] as int,
                                ) by {
                                    assert(k <= last[0].up_to);
                                }
                            }
                        }
                        if !found {
                            return Ok(false);
                        }
                    },
                }
                j = 1;
            } else {
                j += 1;
            }
        }
        proof {
            let lead = self.postings@[0];
            assert(lead.same_term(terms[0]));
            assert(lead.reached() =~= lead0.reached());
            assert forall|i: int| 1 <= i < terms.len() implies in_place(
                terms[0],
                #[trigger] terms[i],
                lead.pos as int,
            ) by {
                let other = self.postings@[i];
                assert(other.same_term(terms[i]));
                assert(other.reached() =~= terms[i].reached());
                assert(other.reached()[other.up_to as int] == other.pos);
                assert(terms[i].postings.positions()[other.up_to - 1] == lead.pos
                    - terms[0].offset + terms[i].offset);
            }
        }
        Ok(true)
    }

    /// Returns the position of the first term.
    pub fn start_position(&self) -> (r: i32)
        requires
            self.postings@.len() > 0,
        ensures
            r == self.postings@[0].pos,
    {
        self.postings[0].pos
    }

    /// Returns the position of the last term.
    pub fn end_position(&self) -> (r: i32)
        requires
            self.postings@.len() > 0,
        ensures
            r == self.postings@.last().pos,
    {
        self.postings[self.postings.len() - 1].pos
    }

    /// Returns the offset at which the first term starts.
    pub fn start_offset(&self) -> (r: i32)
        requires
            self.postings@.len() > 0,
            self.postings@[0].postings.inv(),
        ensures
            r == self.postings@[0].postings.offsets().0,
    {
        self.postings[0].postings.start_offset()
    }

    /// Returns the offset at which the last term ends.
    pub fn end_offset(&self) -> (r: i32)
        requires
            self.postings@.len() > 0,
            self.postings@.last().postings.inv(),
        ensures
            r == self.postings@.last().postings.offsets().1,
    {
        self.postings[self.postings.len() - 1].postings.end_offset()
    }

    /// Returns the cost of confirming one document.
    pub fn get_match_cost(&self) -> (r: i32)
        ensures
            r == self.match_cost,
    {
        self.match_cost
    }
}

proof fn lemma_same_terms_refl<P: PositionsEnum>(terms: Seq<PostingsAndPosition<P>>)
    ensures
        same_terms(terms, terms),
{
}

proof fn lemma_same_terms_update<P: PositionsEnum>(
    terms: Seq<PostingsAndPosition<P>>,
    now: Seq<PostingsAndPosition<P>>,
    i: int,
    x: PostingsAndPosition<P>,
)
    requires
        same_terms(terms, now),
        0 <= i < now.len(),
        x.same_term(now[i]),
    ensures
        same_terms(terms, now.update(i, x)),
{
    assert forall|j: int| 0 <= j < terms.len() implies (#[trigger] now.update(i, x)[j]).same_term(
        terms[j],
    ) by {
        assert(now[j].same_term(terms[j]));
    }
}

/// The positions of a term, with the one before the first, do not decrease.
proof fn lemma_reached_sorted<P: PositionsEnum>(p: PostingsAndPosition<P>, i: int, k: int)
    requires
        sorted_positions(p.postings.positions()),
        0 <= i <= k < p.reached().len(),
    ensures
        p.reached()[i] <= p.reached()[k],
        p.reached()[i] >= -1,
{
    if i > 0 {
        assert(p.reached()[i] == p.postings.positions()[i - 1]);
        assert(p.reached()[k] == p.postings.positions()[k - 1]);
    } else if k > 0 {
        assert(p.reached()[k] == p.postings.positions()[k - 1]);
    }
}

/// What has not been passed is not passed when the first term moves on.
proof fn lemma_still_not_passed<P: PositionsEnum>(
    lead: PostingsAndPosition<P>,
    moved: PostingsAndPosition<P>,
    other: PostingsAndPosition<P>,
)
    requires
        not_passed(lead, other, lead.pos as int),
        moved.offset == lead.offset,
        moved.pos >= lead.pos,
    ensures
        not_passed(moved, other, moved.pos as int),
{
}

/// A term that moves to its place has not passed it.
proof fn lemma_all_wf<P: PositionsEnum>(
    now: Seq<PostingsAndPosition<P>>,
    then: Seq<PostingsAndPosition<P>>,
    j: int,
    expected: int,
)
    requires
        now.len() > 0,
        forall|i: int| 0 <= i < now.len() ==> (#[trigger] now[i]).wf(),
        forall|i: int|
            1 <= i < now.len() ==> not_passed(now[0], #[trigger] now[i], now[0].pos as int),
        1 <= j < now.len(),
        then == now.update(j, then[j]),
        then[j].wf(),
        then[j].same_term(now[j]),
        expected == now[0].pos - now[0].offset + now[j].offset,
        forall|i: int|
            now[j].up_to <= i < then[j].up_to ==> #[trigger] now[j].reached()[i] < if expected < 0 {
                0
            } else {
                expected
            },
    ensures
        forall|i: int| 0 <= i < then.len() ==> (#[trigger] then[i]).wf(),
        forall|i: int|
            1 <= i < then.len() ==> not_passed(then[0], #[trigger] then[i], then[0].pos as int),
{
    assert(then[j].reached() =~= now[j].reached());
    assert forall|i: int| 0 <= i < then.len() implies (#[trigger] then[i]).wf() by {
        assert(i != j ==> then[i] == now[i]);
    }
    assert forall|i: int| 1 <= i < then.len() implies not_passed(
        then[0],
        #[trigger] then[i],
        then[0].pos as int,
    ) by {
        assert(not_passed(now[0], now[i], now[0].pos as int));
        if i == j {
            assert forall|k: int| 1 <= k < then[j].up_to implies #[trigger] then[j].reached()[k]
                < expected by {
                assert(then[j].reached()[k] == then[j].postings.positions()[k - 1]);
                assert(now[j].reached()[k] == then[j].reached()[k]);
            }
        }
    }
}

/// Where a term has no position from `from` up to its current one, or none at all,
/// the phrase is not at positions of the first term that would need one there.
proof fn lemma_not_at<P: PositionsEnum>(
    terms: Seq<PostingsAndPosition<P>>,
    now: Seq<PostingsAndPosition<P>>,
    j: int,
    x: int,
    y: int,
)
    requires
        same_terms(terms, now),
        1 <= j < now.len(),
        now[j].wf(),
        not_passed(now[0], now[j], x),
        x <= y,
        y - now[0].offset + now[j].offset < now[j].pos || (now[j].up_to == now[j].freq && (
        now[j].pos < y - now[0].offset + now[j].offset || now[j].pos < 0)),
    ensures
        !phrase_at(terms, y),
{
    let other = now[j];
    assert(now[0].same_term(terms[0]) && other.same_term(terms[j]));
    assert(other.reached() =~= terms[j].reached());
    if phrase_at(terms, y) {
        assert(in_place(terms[0], terms[j], y));
        let i = choose|i: int|
            0 <= i < terms[j].postings.positions().len()
                && #[trigger] terms[j].postings.positions()[i] == y - terms[0].offset
                + terms[j].offset;
        let k = i + 1;
        assert(other.reached()[k] == other.postings.positions()[i]);
        if k >= other.up_to {
            lemma_reached_sorted(other, other.up_to as int, k);
        }
        if other.up_to > 0 {
            assert(other.pos == other.postings.positions()[other.up_to - 1]);
        }
    }
}

/// Whether `least` is the least number of positions of the first `n` terms.
spec fn least_of<P: PositionsEnum>(
    terms: Seq<PostingsAndPosition<P>>,
    n: int,
    least: i32,
) -> bool {
    &&& exists|j: int|
        0 <= j < n && least == (#[trigger] terms[j]).postings.positions().len()
    &&& forall|j: int|
        0 <= j < n ==> least <= (#[trigger] terms[j]).postings.positions().len()
}

/// Reads the next position of a term.
fn step<P: PositionsEnum>(posting: &mut PostingsAndPosition<P>) -> (r: Result<(), LuceneError>)
    requires
        old(posting).wf(),
        old(posting).up_to < old(posting).freq,
    ensures
        old(posting).postings.infallible() ==> r is Ok,
        final(posting).same_term(*old(posting)),
        r is Ok ==> final(posting).wf() && final(posting).up_to == old(posting).up_to + 1,
{
    let ghost before = *posting;
    match posting.postings.next_position() {
        Ok(p) => {
            posting.pos = p;
            posting.up_to = posting.up_to + 1;
            assert(posting.reached() =~= before.reached());
            Ok(())
        },
        Err(e) => Err(e),
    }
}

/// The positions of the first term at which the phrase is.
pub open spec fn phrase_positions<P: PositionsEnum>(
    postings: Seq<PostingsAndPosition<P>>,
) -> Set<int> {
    Set::new(
        |x: int|
            phrase_at(postings, x) && exists|i: int|
                0 <= i < postings[0].postings.positions().len()
                    && #[trigger] postings[0].postings.positions()[i] == x,
    )
}

/// A phrase is at no more positions than each of its terms. So it is at no more positions
/// than its rarest term.
pub proof fn phrase_is_not_more_frequent<P: PositionsEnum>(
    postings: Seq<PostingsAndPosition<P>>,
    j: int,
)
    requires
        0 <= j < postings.len(),
    ensures
        phrase_positions(postings).finite(),
        phrase_positions(postings).len() <= postings[j].postings.positions().len(),
{
    broadcast use vstd::seq_lib::seq_to_set_is_finite;

    let positions = postings[j].postings.positions();
    let shift = postings[0].offset - postings[j].offset;
    let f = |p: i32| p + shift;
    let places = positions.to_set().map(f);
    positions.lemma_cardinality_of_set();
    lemma_map_size_bound(positions.to_set(), places, f);
    assert forall|x: int| #[trigger] phrase_positions(postings).contains(x) implies places.contains(
        x,
    ) by {
        if j == 0 {
            let i = choose|i: int| 0 <= i < positions.len() && #[trigger] positions[i] == x;
            assert(positions.to_set().contains(positions[i]));
            assert(f(positions[i]) == x);
        } else {
            assert(in_place(postings[0], postings[j], x));
            let i = choose|i: int|
                0 <= i < positions.len() && #[trigger] positions[i] == x - postings[0].offset
                    + postings[j].offset;
            assert(positions.to_set().contains(positions[i]));
            assert(f(positions[i]) == x);
        }
    }
    lemma_len_subset(phrase_positions(postings), places);
}

/// How often a term is in a document, and the length of the document: the less, the
/// greater the score. Lengths are ordered as unsigned integers.
pub type Impact = (i32, i64);

/// Frequencies and lengths do not decrease.
pub open spec fn sorted_impacts(list: Seq<Impact>) -> bool {
    &&& forall|i: int, k: int| 0 <= i <= k < list.len() ==> list[i].0 <= list[k].0
    &&& forall|i: int, k: int|
        0 <= i <= k < list.len() ==> (list[i].1 as u64) <= (list[k].1 as u64)
}

/// The impacts of a term up to a document.
pub struct ImpactLevel {
    /// The last document that they cover.
    pub up_to: i32,
    /// The impacts: no document has a greater score than one of them.
    pub impacts: Seq<Impact>,
}

/// The impacts of a term, at several levels that cover more and more documents.
pub trait Impacts {
    /// The levels.
    spec fn levels(&self) -> Seq<ImpactLevel>;

    /// Returns the number of levels.
    fn num_levels(&self) -> (r: i32)
        ensures
            r == self.levels().len(),
    ;

    /// Returns the last document that a level covers.
    fn doc_id_up_to(&self, level: i32) -> (r: i32)
        requires
            0 <= level < self.levels().len(),
        ensures
            r == self.levels()[level as int].up_to,
    ;

    /// Returns the impacts of a level.
    fn get_impacts(&self, level: i32) -> (r: Vec<Impact>)
        requires
            0 <= level < self.levels().len(),
        ensures
            r@ == self.levels()[level as int].impacts,
            sorted_impacts(r@),
    ;
}

/// A term whose impacts are known.
pub trait ImpactsEnum {
    /// The impacts.
    type I: Impacts;

    /// The estimated number of documents.
    spec fn reported_cost(&self) -> i64;

    /// The document that the impacts are given from.
    spec fn shallow(&self) -> Option<i32>;

    /// The impacts from there on.
    spec fn current(&self) -> Self::I;

    /// Whether reading never fails.
    spec fn infallible(&self) -> bool;

    /// Returns the estimated number of documents.
    fn cost(&self) -> (r: i64)
        ensures
            r == self.reported_cost(),
    ;

    /// Goes to the impacts from `target` on.
    ///
    /// # Errors
    ///
    /// Whatever reading the impacts fails with.
    fn advance_shallow(&mut self, target: i32) -> (r: Result<(), LuceneError>)
        ensures
            old(self).infallible() ==> r is Ok,
            final(self).infallible() == old(self).infallible(),
            final(self).reported_cost() == old(self).reported_cost(),
            r is Ok ==> final(self).shallow() == Some(target),
    ;

    /// Returns the impacts.
    ///
    /// # Errors
    ///
    /// Whatever reading the impacts fails with.
    fn get_impacts(&mut self) -> (r: Result<Self::I, LuceneError>)
        ensures
            old(self).infallible() ==> r is Ok,
            final(self).infallible() == old(self).infallible(),
            final(self).reported_cost() == old(self).reported_cost(),
            final(self).shallow() == old(self).shallow(),
            r matches Ok(impacts) ==> impacts == old(self).current(),
    ;
}

/// The impacts of a phrase, made of those of its terms.
pub struct MergedImpactsSource<E> {
    /// The terms.
    pub impacts_enums: Vec<E>,
    /// The term with the least cost, whose levels are those of the phrase.
    pub lead_index: usize,
}

/// Whether the term at position `lead` is the first of those with the least cost.
pub open spec fn is_cheapest<E: ImpactsEnum>(enums: Seq<E>, n: int, lead: int) -> bool {
    &&& 0 <= lead < n
    &&& forall|i: int| 0 <= i < n ==> enums[lead].reported_cost() <= (
    #[trigger] enums[i]).reported_cost()
    &&& forall|i: int| 0 <= i < lead ==> enums[lead].reported_cost() < (
    #[trigger] enums[i]).reported_cost()
}

/// Merges the impacts of the terms of a phrase. The levels are those of the term with
/// the least cost.
pub fn merge_impacts<E: ImpactsEnum>(impacts_enums: Vec<E>) -> (r: MergedImpactsSource<E>)
    ensures
        r.impacts_enums == impacts_enums,
        impacts_enums@.len() == 0 ==> r.lead_index == 0,
        impacts_enums@.len() > 0 ==> is_cheapest(
            impacts_enums@,
            impacts_enums@.len() as int,
            r.lead_index as int,
        ),
{
    let n: usize = impacts_enums.len();
    let mut lead_index: usize = 0;
    let mut i: usize = 1;
    while i < n
        invariant
            n == impacts_enums@.len(),
            1 <= i,
            n > 0 ==> i <= n,
            n > 0 ==> is_cheapest(impacts_enums@, i as int, lead_index as int),
            n == 0 ==> lead_index == 0,
        decreases n - i,
    {
        if impacts_enums[i].cost() < impacts_enums[lead_index].cost() {
            lead_index = i;
        }
        i += 1;
    }
    MergedImpactsSource { impacts_enums, lead_index }
}

impl<E: ImpactsEnum> MergedImpactsSource<E> {
    /// Goes to the impacts from `target` on.
    ///
    /// # Errors
    ///
    /// Whatever reading the impacts fails with.
    pub fn advance_shallow(&mut self, target: i32) -> (r: Result<(), LuceneError>)
        ensures
            (forall|i: int|
                0 <= i < old(self).impacts_enums@.len() ==> (#[trigger] old(
                    self,
                ).impacts_enums@[i]).infallible()) ==> r is Ok,
            final(self).lead_index == old(self).lead_index,
            final(self).impacts_enums@.len() == old(self).impacts_enums@.len(),
            r is Ok ==> forall|i: int|
                0 <= i < final(self).impacts_enums@.len() ==> (
                #[trigger] final(self).impacts_enums@[i]).shallow() == Some(target)
                    && final(self).impacts_enums@[i].reported_cost()
                    == old(self).impacts_enums@[i].reported_cost(),
    {
        let n: usize = self.impacts_enums.len();
        let mut i: usize = 0;
        while i < n
            invariant
                n == self.impacts_enums@.len(),
                n == old(self).impacts_enums@.len(),
                i <= n,
                self.lead_index == old(self).lead_index,
                forall|j: int|
                    0 <= j < i ==> (#[trigger] self.impacts_enums@[j]).shallow() == Some(target)
                        && self.impacts_enums@[j].reported_cost() == old(
                        self,
                    ).impacts_enums@[j].reported_cost(),
                forall|j: int|
                    i <= j < n ==> #[trigger] self.impacts_enums@[j] == old(self).impacts_enums@[j],
            decreases n - i,
        {
            assert(self.impacts_enums@[i as int] == old(self).impacts_enums@[i as int]);
            self.impacts_enums[i].advance_shallow(target)?;
            i += 1;
        }
        Ok(())
    }

    /// Returns the impacts.
    ///
    /// # Errors
    ///
    /// Whatever reading the impacts fails with.
    pub fn get_impacts(&mut self) -> (r: Result<MergedImpacts<E::I>, LuceneError>)
        ensures
            (forall|i: int|
                0 <= i < old(self).impacts_enums@.len() ==> (#[trigger] old(
                    self,
                ).impacts_enums@[i]).infallible()) ==> r is Ok,
            final(self).lead_index == old(self).lead_index,
            final(self).impacts_enums@.len() == old(self).impacts_enums@.len(),
            r matches Ok(merged) ==> merged.lead_index == old(self).lead_index
                && merged.impacts@ == old(self).impacts_enums@.map_values(|e: E| e.current()),
    {
        let ghost enums = self.impacts_enums@;
        let n: usize = self.impacts_enums.len();
        let mut impacts: Vec<E::I> = Vec::with_capacity(n);
        let mut i: usize = 0;
        while i < n
            invariant
                n == self.impacts_enums@.len(),
                n == enums.len(),
                enums == old(self).impacts_enums@,
                i <= n,
                self.lead_index == old(self).lead_index,
                impacts@ =~= enums.take(i as int).map_values(|e: E| e.current()),
                forall|j: int| i <= j < n ==> #[trigger] self.impacts_enums@[j] == enums[j],
            decreases n - i,
        {
            assert(self.impacts_enums@[i as int] == enums[i as int]);
            let found = self.impacts_enums[i].get_impacts()?;
            impacts.push(found);
            i += 1;
        }
        assert(enums.take(n as int) =~= enums);
        Ok(MergedImpacts { impacts, lead_index: self.lead_index })
    }
}

/// The impacts of a phrase from a document on.
pub struct MergedImpacts<I> {
    /// The impacts of the terms.
    pub impacts: Vec<I>,
    /// The term whose levels are those of the phrase.
    pub lead_index: usize,
}

/// Impacts that say nothing.
pub open spec fn is_dummy(list: Seq<Impact>) -> bool {
    list.len() > 0 && list[0].0 == i32::MAX && list[0].1 == 1
}

/// The first level that covers a document; -1 when there is none.
pub open spec fn level_of(levels: Seq<ImpactLevel>, up_to: i32, from: int) -> int
    decreases levels.len() - from,
{
    if from < 0 || from >= levels.len() {
        -1
    } else if levels[from].up_to >= up_to {
        from
    } else {
        level_of(levels, up_to, from + 1)
    }
}

/// The impacts of the first `n` terms up to a document, without those that do not
/// cover it or say nothing.
pub open spec fn useful_lists<I: Impacts>(impacts: Seq<I>, up_to: i32, n: int) -> Seq<Seq<Impact>>
    decreases n,
{
    if n <= 0 {
        Seq::empty()
    } else {
        let rest = useful_lists(impacts, up_to, n - 1);
        let level = level_of(impacts[n - 1].levels(), up_to, 0);
        if level == -1 || is_dummy(impacts[n - 1].levels()[level].impacts) {
            rest
        } else {
            rest.push(impacts[n - 1].levels()[level].impacts)
        }
    }
}

/// The list itself, or the impact that a list without impacts counts as.
pub open spec fn padded(list: Seq<Impact>) -> Seq<Impact> {
    if list.len() == 0 {
        seq![(0i32, 0i64)]
    } else {
        list
    }
}

/// The first position from `from` on with another frequency than `freq`.
pub open spec fn skipped(list: Seq<Impact>, from: int, freq: i32) -> int
    decreases list.len() - from,
{
    if 0 <= from < list.len() && list[from].0 == freq {
        skipped(list, from + 1, freq)
    } else {
        from
    }
}

/// The least frequency at the given positions of the first `n` lists.
pub open spec fn least_freq(lists: Seq<Seq<Impact>>, at: Seq<int>, n: int) -> i32
    decreases n,
{
    if n <= 1 {
        lists[0][at[0]].0
    } else {
        let rest = least_freq(lists, at, n - 1);
        if lists[n - 1][at[n - 1]].0 < rest {
            lists[n - 1][at[n - 1]].0
        } else {
            rest
        }
    }
}

/// The greatest length at the given positions of the first `n` lists.
pub open spec fn greatest_norm(lists: Seq<Seq<Impact>>, at: Seq<int>, n: int) -> i64
    decreases n,
{
    if n <= 0 {
        0
    } else {
        let rest = greatest_norm(lists, at, n - 1);
        if (lists[n - 1][at[n - 1]].1 as u64) > (rest as u64) {
            lists[n - 1][at[n - 1]].1
        } else {
            rest
        }
    }
}

/// The positions in the lists after `k` rounds, each of which passes the impacts with
/// the least frequency.
pub open spec fn positions_after(lists: Seq<Seq<Impact>>, k: nat) -> Seq<int>
    decreases k,
{
    if k == 0 {
        Seq::new(lists.len(), |i: int| 0int)
    } else {
        let at = positions_after(lists, (k - 1) as nat);
        let freq = least_freq(lists, at, lists.len() as int);
        Seq::new(lists.len(), |i: int| skipped(lists[i], at[i], freq))
    }
}

/// Whether no list has been passed completely.
pub open spec fn all_left(lists: Seq<Seq<Impact>>, at: Seq<int>) -> bool {
    forall|i: int| 0 <= i < lists.len() ==> 0 <= #[trigger] at[i] < lists[i].len()
}

/// A list of impacts with one more, which takes the place of one with the same length.
pub open spec fn with_impact(list: Seq<Impact>, freq: i32, norm: i64) -> Seq<Impact> {
    if list.len() > 0 && list.last().1 == norm {
        list.drop_last().push((freq, norm))
    } else {
        list.push((freq, norm))
    }
}

/// What `k` rounds put together: in each one the least frequency and the greatest length
/// at the current positions.
pub open spec fn merged_impacts(lists: Seq<Seq<Impact>>, k: nat) -> Seq<Impact>
    decreases k,
{
    if k == 0 {
        Seq::empty()
    } else {
        let at = positions_after(lists, (k - 1) as nat);
        with_impact(
            merged_impacts(lists, (k - 1) as nat),
            least_freq(lists, at, lists.len() as int),
            greatest_norm(lists, at, lists.len() as int),
        )
    }
}

/// Whether a list has been passed completely after `k` rounds, and none before.
pub open spec fn is_last_round(lists: Seq<Seq<Impact>>, k: nat) -> bool {
    &&& k > 0
    &&& !all_left(lists, positions_after(lists, k))
    &&& forall|i: nat| i < k ==> #[trigger] all_left(lists, positions_after(lists, i))
}

/// Whether no document has a greater score, with a frequency of at least `freq` and the
/// length `norm`, than one of the impacts.
pub open spec fn covers(list: Seq<Impact>, freq: i32, norm: i64) -> bool {
    exists|i: int|
        0 <= i < list.len() && (#[trigger] list[i]).0 >= freq && (list[i].1 as u64) <= (norm as u64)
}

/// Walks through a list of impacts.
struct SubIterator {
    buffer: Vec<Impact>,
    index: usize,
    freq: i32,
    norm: i64,
}

impl SubIterator {
    /// The current position.
    spec fn at(&self) -> int {
        if self.buffer@.len() == 0 {
            0
        } else {
            self.index - 1
        }
    }

    /// The current frequency and length are those at the current position.
    spec fn wf(&self) -> bool {
        &&& self.index <= self.buffer@.len()
        &&& self.buffer@.len() > 0 ==> self.index >= 1
        &&& (self.freq, self.norm) == padded(self.buffer@)[self.at()]
    }

    fn new(buffer: Vec<Impact>) -> (r: Self)
        ensures
            r.wf(),
            r.buffer == buffer,
            r.at() == 0,
    {
        if buffer.len() == 0 {
            SubIterator { buffer, index: 0, freq: 0, norm: 0 }
        } else {
            let (freq, norm) = buffer[0];
            SubIterator { buffer, index: 1, freq, norm }
        }
    }

    /// Moves to the next impact; returns whether there is one.
    fn next(&mut self) -> (r: bool)
        requires
            old(self).wf(),
        ensures
            final(self).wf(),
            final(self).buffer == old(self).buffer,
            r <==> old(self).at() + 1 < padded(old(self).buffer@).len(),
            !r ==> *final(self) == *old(self),
            r ==> final(self).at() == old(self).at() + 1,
    {
        if self.index >= self.buffer.len() {
            return false;
        }
        let (freq, norm) = self.buffer[self.index];
        self.freq = freq;
        self.norm = norm;
        self.index = self.index + 1;
        true
    }
}

/// Puts the lists with the least frequencies first.
struct ByFreq;

impl SlotOrder<(i32, usize)> for ByFreq {
    open spec fn before(a: (i32, usize), b: (i32, usize)) -> bool {
        a.0 < b.0
    }

    open spec fn comparable(a: (i32, usize)) -> bool {
        true
    }

    open spec fn infallible(a: (i32, usize)) -> bool {
        true
    }

    fn comes_before(a: &(i32, usize), b: &(i32, usize)) -> (r: Result<bool, LuceneError>) {
        Ok(a.0 < b.0)
    }
}

spec fn freq_order() -> spec_fn((i32, usize), (i32, usize)) -> bool {
    order_of::<(i32, usize), ByFreq>()
}

spec fn freq_at_most() -> spec_fn((i32, usize), (i32, usize)) -> bool {
    |a: (i32, usize), b: (i32, usize)| a.0 <= b.0
}

spec fn has_list(s: Seq<(i32, usize)>, i: int) -> bool {
    exists|p: int| 0 <= p < s.len() && (#[trigger] s[p]).1 == i
}

/// Each list is in the queue once, with its current frequency.
spec fn queue_ok(s: Seq<(i32, usize)>, freqs: Seq<i32>) -> bool {
    &&& s.len() == freqs.len()
    &&& forall|p: int|
        0 <= p < s.len() ==> (#[trigger] s[p]).1 < freqs.len() && s[p].0 == freqs[s[p].1 as int]
    &&& forall|p: int, q: int| 0 <= p < q < s.len() ==> (#[trigger] s[p]).1 != (#[trigger] s[q]).1
    &&& forall|i: int| 0 <= i < freqs.len() ==> #[trigger] has_list(s, i)
}

proof fn lemma_swapped_ok(s: Seq<(i32, usize)>, freqs: Seq<i32>, i: int, j: int)
    requires
        queue_ok(s, freqs),
        0 <= i < s.len(),
        0 <= j < s.len(),
    ensures
        queue_ok(swapped(s, i, j), freqs),
{
    let t = swapped(s, i, j);
    assert forall|k: int| 0 <= k < freqs.len() implies #[trigger] has_list(t, k) by {
        assert(has_list(s, k));
        let p = choose|p: int| 0 <= p < s.len() && (#[trigger] s[p]).1 == k;
        let q = if p == i {
            j
        } else if p == j {
            i
        } else {
            p
        };
        assert(t[q].1 == k);
    }
}

proof fn lemma_sift_down_ok(s: Seq<(i32, usize)>, freqs: Seq<i32>, i: int)
    requires
        queue_ok(s, freqs),
    ensures
        queue_ok(sift_down(s, freq_order(), i), freqs),
    decreases s.len() - i,
{
    let c = lesser_child(s, freq_order(), i);
    if 0 <= i && 2 * i + 1 < s.len() && freq_order()(s[c], s[i]) {
        lemma_swapped_ok(s, freqs, i, c);
        lemma_sift_down_ok(swapped(s, i, c), freqs, c);
    }
}

proof fn lemma_sift_up_ok(s: Seq<(i32, usize)>, freqs: Seq<i32>, i: int)
    requires
        queue_ok(s, freqs),
    ensures
        queue_ok(sift_up(s, freq_order(), i), freqs),
    decreases i,
{
    if 0 < i < s.len() && freq_order()(s[i], s[parent(i)]) {
        lemma_swapped_ok(s, freqs, i, parent(i));
        lemma_sift_up_ok(swapped(s, i, parent(i)), freqs, parent(i));
    }
}

/// The queue after the list at its root has moved on.
proof fn lemma_replaced_ok(s: Seq<(i32, usize)>, freqs: Seq<i32>, freq: i32)
    requires
        queue_ok(s, freqs),
        s.len() > 0,
        is_heap(s, freq_at_most()),
    ensures
        ({
            let id = s[0].1;
            let t = crate::util::priority_queue::replaced(s, freq_order(), (freq, id));
            &&& queue_ok(t, freqs.update(id as int, freq))
            &&& is_heap(t, freq_at_most())
        }),
{
    let id = s[0].1;
    let u = s.update(0, (freq, id));
    let after = freqs.update(id as int, freq);
    assert(refines(freq_order(), freq_at_most()));
    operations_keep_items(s, freq_order(), freq_at_most(), (freq, id));
    assert forall|p: int| 0 <= p < u.len() implies (#[trigger] u[p]).1 < after.len() && u[p].0
        == after[u[p].1 as int] by {
        if p > 0 {
            assert(s[0].1 != s[p].1);
        }
    }
    assert forall|k: int| 0 <= k < after.len() implies #[trigger] has_list(u, k) by {
        assert(has_list(s, k));
        let p = choose|p: int| 0 <= p < s.len() && (#[trigger] s[p]).1 == k;
        assert(u[p].1 == k);
    }
    assert forall|p: int, q: int| 0 <= p < q < u.len() implies (#[trigger] u[p]).1 != (
    #[trigger] u[q]).1 by {
        assert(s[p].1 != s[q].1);
    }
    lemma_sift_down_ok(u, after, 0);
}

/// The queue after a list was added.
proof fn lemma_added_ok(s: Seq<(i32, usize)>, freqs: Seq<i32>, freq: i32)
    requires
        queue_ok(s, freqs),
        is_heap(s, freq_at_most()),
        s.len() <= usize::MAX,
    ensures
        ({
            let t = sift_up(s.push((freq, s.len() as usize)), freq_order(), s.len() as int);
            &&& queue_ok(t, freqs.push(freq))
            &&& is_heap(t, freq_at_most())
        }),
{
    let item = (freq, s.len() as usize);
    let u = s.push(item);
    let after = freqs.push(freq);
    assert(refines(freq_order(), freq_at_most()));
    operations_keep_items(s, freq_order(), freq_at_most(), item);
    assert forall|k: int| 0 <= k < after.len() implies #[trigger] has_list(u, k) by {
        if k < s.len() {
            assert(has_list(s, k));
            let p = choose|p: int| 0 <= p < s.len() && (#[trigger] s[p]).1 == k;
            assert(u[p].1 == k);
        } else {
            assert(u[k].1 == k);
        }
    }
    assert forall|p: int, q: int| 0 <= p < q < u.len() implies (#[trigger] u[p]).1 != (
    #[trigger] u[q]).1 by {
        if q < s.len() {
            assert(s[p].1 != s[q].1);
        } else {
            assert(s[p].1 < freqs.len());
        }
    }
    lemma_sift_up_ok(u, after, s.len() as int);
}

proof fn lemma_same_unsigned(a: i64, b: i64)
    requires
        a as u64 == b as u64,
    ensures
        a == b,
{
    assert(a as u64 == b as u64 ==> a == b) by (bit_vector);
}

/// The frequency at a position that is not greater than any other is the least one.
proof fn lemma_least_freq(lists: Seq<Seq<Impact>>, at: Seq<int>, n: int, freq: i32)
    requires
        n >= 1,
        exists|i: int| 0 <= i < n && lists[i][#[trigger] at[i]].0 == freq,
        forall|i: int| 0 <= i < n ==> freq <= lists[i][#[trigger] at[i]].0,
    ensures
        least_freq(lists, at, n) == freq,
    decreases n,
{
    if n > 1 {
        if exists|i: int| 0 <= i < n - 1 && lists[i][#[trigger] at[i]].0 == freq {
            lemma_least_freq(lists, at, n - 1, freq);
        } else {
            lemma_least_is_among(lists, at, n - 1);
            let i = choose|i: int| 0 <= i < n && lists[i][#[trigger] at[i]].0 == freq;
            assert(i == n - 1);
        }
    } else {
        let i = choose|i: int| 0 <= i < n && lists[i][#[trigger] at[i]].0 == freq;
        assert(i == 0);
    }
}

/// The least frequency is that of one list, and no other is less.
proof fn lemma_least_is_among(lists: Seq<Seq<Impact>>, at: Seq<int>, n: int)
    requires
        n >= 1,
    ensures
        exists|i: int|
            0 <= i < n && lists[i][#[trigger] at[i]].0 == least_freq(lists, at, n),
        forall|i: int| 0 <= i < n ==> least_freq(lists, at, n) <= lists[i][#[trigger] at[i]].0,
    decreases n,
{
    if n > 1 {
        lemma_least_is_among(lists, at, n - 1);
        assert(lists[n - 1][at[n - 1]].0 == lists[n - 1][at[n - 1]].0);
    } else {
        assert(lists[0][at[0]].0 == least_freq(lists, at, n));
    }
}

/// Whether `norm` is the greatest of 0 and the lengths at the given positions.
spec fn is_greatest_norm(lists: Seq<Seq<Impact>>, at: Seq<int>, n: int, norm: i64) -> bool {
    &&& norm == 0 || exists|i: int| 0 <= i < n && lists[i][#[trigger] at[i]].1 == norm
    &&& forall|i: int| 0 <= i < n ==> (lists[i][#[trigger] at[i]].1 as u64) <= (norm as u64)
}

proof fn lemma_greatest_is_among(lists: Seq<Seq<Impact>>, at: Seq<int>, n: int)
    ensures
        is_greatest_norm(lists, at, n, greatest_norm(lists, at, n)),
    decreases n,
{
    if n > 0 {
        lemma_greatest_is_among(lists, at, n - 1);
        let rest = greatest_norm(lists, at, n - 1);
        let norm = greatest_norm(lists, at, n);
        if (lists[n - 1][at[n - 1]].1 as u64) > (rest as u64) {
            assert(lists[n - 1][at[n - 1]].1 == norm);
        } else if rest != 0 {
            let i = choose|i: int| 0 <= i < n - 1 && lists[i][#[trigger] at[i]].1 == rest;
            assert(lists[i][at[i]].1 == norm);
        }
        assert forall|i: int| 0 <= i < n implies (lists[i][#[trigger] at[i]].1 as u64) <= (
        norm as u64) by {
            assert(i < n - 1 || i == n - 1);
        }
    }
}

proof fn lemma_greatest_norm(lists: Seq<Seq<Impact>>, at: Seq<int>, n: int, norm: i64)
    requires
        is_greatest_norm(lists, at, n, norm),
    ensures
        greatest_norm(lists, at, n) == norm,
{
    lemma_greatest_is_among(lists, at, n);
    let g = greatest_norm(lists, at, n);
    assert(g as u64 <= norm as u64) by {
        if g != 0 {
            let i = choose|i: int| 0 <= i < n && lists[i][#[trigger] at[i]].1 == g;
            assert((lists[i][at[i]].1 as u64) <= (norm as u64));
        }
    }
    assert(norm as u64 <= g as u64) by {
        if norm != 0 {
            let i = choose|i: int| 0 <= i < n && lists[i][#[trigger] at[i]].1 == norm;
            assert((lists[i][at[i]].1 as u64) <= (g as u64));
        }
    }
    lemma_same_unsigned(g, norm);
}

/// Passing a run of one frequency ends where another frequency is, or the list ends.
proof fn lemma_skipped(list: Seq<Impact>, from: int, to: int, freq: i32)
    requires
        0 <= from <= to <= list.len(),
        forall|i: int| from <= i < to ==> (#[trigger] list[i]).0 == freq,
        to < list.len() ==> list[to].0 != freq,
    ensures
        skipped(list, from, freq) == to,
    decreases to - from,
{
    if from < to {
        assert(list[from].0 == freq);
        lemma_skipped(list, from + 1, to, freq);
    }
}

/// The number of impacts that are left in the first `n` lists.
spec fn left_in(lists: Seq<Seq<Impact>>, at: Seq<int>, n: int) -> int
    decreases n,
{
    if n <= 0 {
        0
    } else {
        left_in(lists, at, n - 1) + (lists[n - 1].len() - at[n - 1])
    }
}

proof fn lemma_left_in(lists: Seq<Seq<Impact>>, at: Seq<int>, n: int, k: int)
    requires
        at.len() == lists.len(),
        n <= lists.len(),
        0 <= k < lists.len(),
    ensures
        left_in(lists, at.update(k, at[k] + 1), n) == left_in(lists, at, n) - if k < n {
            1int
        } else {
            0
        },
    decreases n,
{
    if n > 0 {
        lemma_left_in(lists, at, n - 1, k);
    }
}

proof fn lemma_left_in_positive(lists: Seq<Seq<Impact>>, at: Seq<int>, n: int)
    requires
        all_left(lists, at),
        n <= lists.len(),
    ensures
        left_in(lists, at, n) >= 0,
    decreases n,
{
    if n > 0 {
        lemma_left_in_positive(lists, at, n - 1);
        assert(at[n - 1] < lists[n - 1].len());
    }
}

/// The current positions in the lists.
spec fn current(subs: Seq<SubIterator>) -> Seq<int> {
    subs.map_values(|s: SubIterator| s.at())
}

/// The current frequencies of the lists.
spec fn frequencies(subs: Seq<SubIterator>) -> Seq<i32> {
    subs.map_values(|s: SubIterator| s.freq)
}

/// The iterators walk through the lists.
spec fn walk(subs: Seq<SubIterator>, lists: Seq<Seq<Impact>>) -> bool {
    &&& subs.len() == lists.len()
    &&& forall|i: int|
        0 <= i < subs.len() ==> (#[trigger] subs[i]).wf() && padded(subs[i].buffer@) == lists[i]
            && 0 <= subs[i].at() < lists[i].len()
}

/// Merges the impacts of several terms.
///
/// A document has at most the least of the frequencies of the terms, and is at least as
/// long as each term asks for.
#[verifier::spinoff_prover]
#[verifier::rlimit(50)]
fn merge_lists(buffers: Vec<Vec<Impact>>) -> (r: Vec<Impact>)
    requires
        buffers@.len() >= 1,
        2 * buffers@.len() <= usize::MAX,
        forall|i: int| 0 <= i < buffers@.len() ==> sorted_impacts((#[trigger] buffers@[i])@),
    ensures
        ({
            let lists = buffers@.map_values(|b: Vec<Impact>| padded(b@));
            exists|k: nat| #[trigger] is_last_round(lists, k) && r@ == merged_impacts(lists, k)
        }),
{
    let ghost lists = buffers@.map_values(|b: Vec<Impact>| padded(b@));
    let ghost all = buffers@;
    let n: usize = buffers.len();
    let mut subs: Vec<SubIterator> = Vec::with_capacity(n);
    for buffer in it: buffers
        invariant
            it.seq() == all,
            lists == all.map_values(|b: Vec<Impact>| padded(b@)),
            subs@.len() == it.index(),
            forall|i: int|
                0 <= i < subs@.len() ==> (#[trigger] subs@[i]).wf() && subs@[i].buffer == all[i]
                    && subs@[i].at() == 0,
    {
        subs.push(SubIterator::new(buffer));
    }
    assert(walk(subs@, lists)) by {
        assert forall|i: int| 0 <= i < subs@.len() implies padded((#[trigger] subs@[i]).buffer@)
            == lists[i] by {
            assert(lists[i] == padded(all[i]@));
        }
    }
    assert forall|i: int| 0 <= i < n implies sorted_impacts(#[trigger] lists[i]) by {
        assert(sorted_impacts(all[i]@));
    }
    let mut pq: PriorityQueue<(i32, usize), ByFreq> = PriorityQueue::new(n);
    let mut current_norm: i64 = 0;
    let mut i: usize = 0;
    while i < n
        invariant
            n == subs@.len(),
            n == lists.len(),
            i <= n,
            walk(subs@, lists),
            pq.wf(),
            pq.capacity() == n,
            queue_ok(pq.heap(), frequencies(subs@).take(i as int)),
            is_heap(pq.heap(), freq_at_most()),
            current_norm == greatest_norm(lists, current(subs@), i as int),
        decreases n - i,
    {
        let ghost before = pq.heap();
        let freq: i32 = subs[i].freq;
        let norm: i64 = subs[i].norm;
        pq.add((freq, i));
        proof {
            lemma_added_ok(before, frequencies(subs@).take(i as int), freq);
            assert(frequencies(subs@).take(i as int).push(freq) =~= frequencies(subs@).take(i + 1));
            assert(before.len() == i);
            let c = current(subs@);
            assert(c[i as int] == subs@[i as int].at());
            assert(lists[i as int][c[i as int]] == (freq, norm));
        }
        if norm as u64 > current_norm as u64 {
            current_norm = norm;
        }
        i += 1;
    }
    assert(frequencies(subs@).take(n as int) =~= frequencies(subs@));
    let mut merged: Vec<Impact> = Vec::new();
    let ghost mut k: nat = 0;
    assert(current(subs@) =~= positions_after(lists, 0));
    proof {
        lemma_root(subs@, lists, pq.heap());
    }
    let mut current_freq: i32 = pq.item_at(0).0;
    loop
        invariant
            n >= 1,
            n == subs@.len(),
            n == lists.len(),
            lists == all.map_values(|b: Vec<Impact>| padded(b@)),
            forall|i: int| 0 <= i < n ==> sorted_impacts(#[trigger] lists[i]),
            walk(subs@, lists),
            pq.wf(),
            pq.capacity() == n,
            queue_ok(pq.heap(), frequencies(subs@)),
            is_heap(pq.heap(), freq_at_most()),
            current(subs@) == positions_after(lists, k),
            current_norm == greatest_norm(lists, current(subs@), n as int),
            current_freq == least_freq(lists, current(subs@), n as int),
            current_freq == pq.heap()[0].0,
            merged@ == merged_impacts(lists, k),
            forall|i: nat| i < k ==> #[trigger] all_left(lists, positions_after(lists, i)),
            all == buffers@,
        decreases left_in(lists, current(subs@), n as int),
    {
        let ghost at = current(subs@);
        assert(all_left(lists, at)) by {
            assert forall|i: int| 0 <= i < lists.len() implies 0 <= #[trigger] at[i]
                < lists[i].len() by {
                assert(at[i] == subs@[i].at());
            }
        }
        let ghost before = merged@;
        let m: usize = merged.len();
        if m > 0 && merged[m - 1].1 == current_norm {
            let _last = merged.pop();
        }
        merged.push((current_freq, current_norm));
        assert(merged@ =~= with_impact(before, current_freq, current_norm));
        assert(merged@ == merged_impacts(lists, k + 1));
        proof {
            lemma_greatest_is_among(lists, at, n as int);
            lemma_least_is_among(lists, at, n as int);
        }
        loop
            invariant_except_break
                current_freq == pq.heap()[0].0,
                left_in(lists, current(subs@), n as int) <= left_in(lists, at, n as int),
            invariant
                n >= 1,
                n == subs@.len(),
                n == lists.len(),
                lists == all.map_values(|b: Vec<Impact>| padded(b@)),
                all == buffers@,
                forall|i: int| 0 <= i < n ==> sorted_impacts(#[trigger] lists[i]),
                walk(subs@, lists),
                pq.wf(),
                pq.capacity() == n,
                queue_ok(pq.heap(), frequencies(subs@)),
                is_heap(pq.heap(), freq_at_most()),
                at == positions_after(lists, k),
                all_left(lists, at),
                at.len() == n,
                merged@ == merged_impacts(lists, k + 1),
                forall|i: nat| i < k ==> #[trigger] all_left(lists, positions_after(lists, i)),
                current_freq == least_freq(lists, at, n as int),
                forall|i: int| 0 <= i < n ==> current_freq <= lists[i][#[trigger] at[i]].0,
                is_greatest_norm(lists, current(subs@), n as int, current_norm),
                forall|i: int|
                    0 <= i < n ==> #[trigger] at[i] <= subs@[i].at() && same_run(
                        lists[i],
                        at[i],
                        subs@[i].at(),
                        current_freq,
                    ),
            ensures
                pq.heap()[0].0 != current_freq,
                left_in(lists, current(subs@), n as int) < left_in(lists, at, n as int),
            decreases left_in(lists, current(subs@), n as int),
        {
            let id: usize = pq.item_at(0).1;
            let ghost heap = pq.heap();
            let ghost was = subs@;
            let ghost c = current(subs@);
            proof {
                assert(heap[0].1 < n);
                assert(heap[0].0 == frequencies(was)[id as int]);
                assert(c[id as int] == was[id as int].at());
                assert(at[id as int] <= was[id as int].at());
                assert(lists[id as int][c[id as int]].0 == current_freq);
            }
            let moved: bool = subs[id].next();
            if !moved {
                proof {
                    let list = lists[id as int];
                    lemma_skipped(list, at[id as int], list.len() as int, current_freq);
                    let next = positions_after(lists, k + 1);
                    assert(next[id as int] == list.len());
                    assert(!all_left(lists, next)) by {
                        assert(!(0 <= next[id as int] < lists[id as int].len()));
                    }
                    assert forall|i: nat| i < k + 1 implies #[trigger] all_left(
                        lists,
                        positions_after(lists, i),
                    ) by {
                        assert(i < k || i == k);
                    }
                    assert(is_last_round(lists, k + 1));
                }
                return merged;
            }
            let freq: i32 = subs[id].freq;
            let norm: i64 = subs[id].norm;
            proof {
                let now = current(subs@);
                assert(subs@ =~= was.update(id as int, subs@[id as int]));
                assert(now =~= c.update(id as int, c[id as int] + 1));
                assert(now[id as int] == subs@[id as int].at());
                assert(lists[id as int][now[id as int]] == (freq, norm));
                lemma_left_in(lists, c, n as int, id as int);
                assert(all_left(lists, now)) by {
                    assert forall|i: int| 0 <= i < lists.len() implies 0 <= #[trigger] now[i]
                        < lists[i].len() by {
                        assert(now[i] == subs@[i].at());
                    }
                }
                lemma_left_in_positive(lists, now, n as int);
                lemma_norm_step(lists, c, id as int, n as int, current_norm);
                lemma_replaced_ok(heap, frequencies(was), freq);
                assert(frequencies(subs@) =~= frequencies(was).update(id as int, freq));
                assert forall|i: int| 0 <= i < n implies #[trigger] at[i] <= subs@[i].at()
                    && same_run(lists[i], at[i], subs@[i].at(), current_freq) by {
                    assert(at[i] <= was[i].at() && same_run(
                        lists[i],
                        at[i],
                        was[i].at(),
                        current_freq,
                    ));
                }
            }
            if norm as u64 > current_norm as u64 {
                current_norm = norm;
            }
            let _least = pq.update_top_with((freq, id));
            if pq.item_at(0).0 != current_freq {
                break;
            }
        }
        proof {
            let now = current(subs@);
            lemma_root(subs@, lists, pq.heap());
            let next = positions_after(lists, k + 1);
            assert forall|i: int| 0 <= i < n implies now[i] == #[trigger] next[i] by {
                assert(at[i] <= subs@[i].at());
                let list = lists[i];
                assert(sorted_impacts(list));
                assert(now[i] == subs@[i].at());
                lemma_least_is_among(lists, now, n as int);
                assert(least_freq(lists, now, n as int) <= list[now[i]].0);
                lemma_least_not_below(lists, at, now, current_freq, n as int);
                lemma_skipped(list, at[i], now[i], current_freq);
            }
            assert(now =~= next);
            assert forall|i: nat| i < k + 1 implies #[trigger] all_left(
                lists,
                positions_after(lists, i),
            ) by {
                assert(i < k || i == k);
            }
            lemma_greatest_norm(lists, now, n as int, current_norm);
            assert(all_left(lists, now)) by {
                assert forall|i: int| 0 <= i < lists.len() implies 0 <= #[trigger] now[i]
                    < lists[i].len() by {
                    assert(now[i] == subs@[i].at());
                }
            }
            lemma_left_in_positive(lists, now, n as int);
            k = k + 1;
        }
        current_freq = pq.item_at(0).0;
    }
}

/// The impacts from `from` up to `to` have one frequency.
spec fn same_run(list: Seq<Impact>, from: int, to: int, freq: i32) -> bool {
    forall|i: int| from <= i < to ==> (#[trigger] list[i]).0 == freq
}

/// The root of the queue has the least frequency.
proof fn lemma_root(subs: Seq<SubIterator>, lists: Seq<Seq<Impact>>, s: Seq<(i32, usize)>)
    requires
        walk(subs, lists),
        subs.len() > 0,
        queue_ok(s, frequencies(subs)),
        is_heap(s, freq_at_most()),
    ensures
        least_freq(lists, current(subs), subs.len() as int) == s[0].0,
{
    let c = current(subs);
    let root = s[0].1 as int;
    assert(s[0].0 == frequencies(subs)[root]);
    assert(c[root] == subs[root].at());
    assert(lists[root][c[root]].0 == s[0].0);
    assert forall|i: int| 0 <= i < subs.len() implies s[0].0 <= lists[i][#[trigger] c[i]].0 by {
        assert(has_list(s, i));
        let p = choose|p: int| 0 <= p < s.len() && (#[trigger] s[p]).1 == i;
        heap_root_is_least(s, freq_at_most(), p);
        assert(s[p].0 == frequencies(subs)[i]);
        assert(c[i] == subs[i].at());
    }
    lemma_least_freq(lists, c, subs.len() as int, s[0].0);
}

/// The least frequency does not get less when the positions move on.
proof fn lemma_least_not_below(
    lists: Seq<Seq<Impact>>,
    at: Seq<int>,
    now: Seq<int>,
    freq: i32,
    n: int,
)
    requires
        n >= 1,
        n <= lists.len(),
        forall|i: int| 0 <= i < n ==> sorted_impacts(#[trigger] lists[i]),
        forall|i: int| 0 <= i < n ==> 0 <= #[trigger] at[i] <= now[i] < lists[i].len(),
        forall|i: int| 0 <= i < n ==> freq <= lists[i][#[trigger] at[i]].0,
    ensures
        freq <= least_freq(lists, now, n),
{
    lemma_least_is_among(lists, now, n);
    let i = choose|i: int|
        0 <= i < n && lists[i][#[trigger] now[i]].0 == least_freq(lists, now, n);
    assert(freq <= lists[i][at[i]].0);
    assert(sorted_impacts(lists[i]));
    assert(lists[i][at[i]].0 <= lists[i][now[i]].0);
}

/// The greatest length after one list has moved on.
proof fn lemma_norm_step(lists: Seq<Seq<Impact>>, c: Seq<int>, k: int, n: int, norm: i64)
    requires
        n == lists.len(),
        c.len() == n,
        0 <= k < n,
        sorted_impacts(lists[k]),
        0 <= c[k],
        c[k] + 1 < lists[k].len(),
        is_greatest_norm(lists, c, n, norm),
    ensures
        ({
            let now = c.update(k, c[k] + 1);
            let moved = lists[k][c[k] + 1].1;
            is_greatest_norm(
                lists,
                now,
                n,
                if moved as u64 > norm as u64 {
                    moved
                } else {
                    norm
                },
            )
        }),
{
    let now = c.update(k, c[k] + 1);
    let moved = lists[k][c[k] + 1].1;
    let top = if moved as u64 > norm as u64 {
        moved
    } else {
        norm
    };
    assert(lists[k][now[k]].1 == moved);
    assert(lists[k][c[k]].1 as u64 <= moved as u64);
    assert forall|i: int| 0 <= i < n implies (lists[i][#[trigger] now[i]].1 as u64) <= (
    top as u64) by {
        if i != k {
            assert(now[i] == c[i]);
            assert((lists[i][c[i]].1 as u64) <= (norm as u64));
        }
    }
    if moved as u64 <= norm as u64 && norm != 0 {
        let i = choose|i: int| 0 <= i < n && lists[i][#[trigger] c[i]].1 == norm;
        if i == k {
            lemma_same_unsigned(moved, norm);
            assert(lists[k][now[k]].1 == norm);
        } else {
            assert(lists[i][now[i]].1 == norm);
        }
    }
}

/// Returns the first level that covers a document; -1 when there is none.
fn get_level<I: Impacts>(impacts: &I, doc_id_up_to: i32) -> (r: i32)
    ensures
        r == level_of(impacts.levels(), doc_id_up_to, 0),
        r == -1 || 0 <= r < impacts.levels().len(),
{
    let n: i32 = impacts.num_levels();
    let mut level: i32 = 0;
    while level < n
        invariant
            n == impacts.levels().len(),
            0 <= level <= n,
            level_of(impacts.levels(), doc_id_up_to, 0) == level_of(
                impacts.levels(),
                doc_id_up_to,
                level as int,
            ),
        decreases n - level,
    {
        if impacts.doc_id_up_to(level) >= doc_id_up_to {
            return level;
        }
        level += 1;
    }
    -1
}

impl<I: Impacts> MergedImpacts<I> {
    /// The impacts of the terms at the level of the phrase that count.
    pub open spec fn lists(&self, level: int) -> Seq<Seq<Impact>> {
        useful_lists(
            self.impacts@,
            self.impacts@[self.lead_index as int].levels()[level].up_to,
            self.impacts@.len() as int,
        )
    }

    /// Returns the number of levels.
    pub fn num_levels(&self) -> (r: i32)
        requires
            self.lead_index < self.impacts@.len(),
        ensures
            r == self.impacts@[self.lead_index as int].levels().len(),
    {
        self.impacts[self.lead_index].num_levels()
    }

    /// Returns the last document that a level covers.
    pub fn doc_id_up_to(&self, level: i32) -> (r: i32)
        requires
            self.lead_index < self.impacts@.len(),
            0 <= level < self.impacts@[self.lead_index as int].levels().len(),
        ensures
            r == self.impacts@[self.lead_index as int].levels()[level as int].up_to,
    {
        self.impacts[self.lead_index].doc_id_up_to(level)
    }

    /// Returns the impacts of the phrase at a level: those of the only term that has
    /// some, or those of all terms merged; when no term has any, one that says nothing.
    pub fn get_impacts(&self, level: i32) -> (r: Vec<Impact>)
        requires
            self.lead_index < self.impacts@.len(),
            0 <= level < self.impacts@[self.lead_index as int].levels().len(),
            2 * self.impacts@.len() <= usize::MAX,
        ensures
            ({
                let lists = self.lists(level as int);
                if lists.len() == 0 {
                    r@ == seq![(i32::MAX, 1i64)]
                } else if lists.len() == 1 {
                    r@ == lists[0]
                } else {
                    let filled = lists.map_values(|l: Seq<Impact>| padded(l));
                    exists|k: nat| #[trigger]
                        is_last_round(filled, k) && r@ == merged_impacts(filled, k)
                }
            }),
    {
        let up_to: i32 = self.doc_id_up_to(level);
        let ghost useful = self.lists(level as int);
        let mut buffers: Vec<Vec<Impact>> = Vec::new();
        let mut i: usize = 0;
        while i < self.impacts.len()
            invariant
                i <= self.impacts@.len(),
                buffers@.len() <= i,
                buffers@.map_values(|b: Vec<Impact>| b@) == useful_lists(
                    self.impacts@,
                    up_to,
                    i as int,
                ),
                forall|j: int|
                    0 <= j < buffers@.len() ==> sorted_impacts((#[trigger] buffers@[j])@),
            decreases self.impacts.len() - i,
        {
            let term_level: i32 = get_level(&self.impacts[i], up_to);
            if term_level != -1 {
                let list = self.impacts[i].get_impacts(term_level);
                let dummy: bool = list.len() > 0 && list[0].0 == i32::MAX && list[0].1 == 1;
                if !dummy {
                    let ghost before = buffers@;
                    buffers.push(list);
                    assert(buffers@.map_values(|b: Vec<Impact>| b@) =~= before.map_values(
                        |b: Vec<Impact>| b@,
                    ).push(list@));
                }
            }
            i += 1;
        }
        let ghost seen = buffers@;
        assert(seen.map_values(|b: Vec<Impact>| b@) == useful);
        if buffers.len() == 0 {
            let mut merged: Vec<Impact> = Vec::with_capacity(1);
            merged.push((i32::MAX, 1));
            assert(merged@ =~= seq![(i32::MAX, 1i64)]);
            return merged;
        }
        if buffers.len() == 1 {
            assert(useful[0] == seen[0]@);
            match buffers.pop() {
                Some(list) => {
                    return list;
                },
                None => {
                    return Vec::new();
                },
            }
        }
        assert(seen.map_values(|b: Vec<Impact>| padded(b@)) =~= useful.map_values(
            |l: Seq<Impact>| padded(l),
        )) by {
            assert forall|j: int| 0 <= j < seen.len() implies #[trigger] useful[j] == seen[j]@ by {}
        }
        merge_lists(buffers)
    }
}

/// The merged impacts do not lose a document: one whose frequency and length the impacts
/// of every term cover is covered by the merged ones.
pub proof fn merged_impacts_cover(lists: Seq<Seq<Impact>>, rounds: nat, freq: i32, norm: i64)
    requires
        lists.len() > 0,
        forall|i: int| 0 <= i < lists.len() ==> sorted_impacts(#[trigger] lists[i]),
        is_last_round(lists, rounds),
        forall|i: int| 0 <= i < lists.len() ==> covers(#[trigger] lists[i], freq, norm),
    ensures
        covers(merged_impacts(lists, rounds), freq, norm),
{
    lemma_cover(lists, rounds, freq, norm, rounds);
    if !covers(merged_impacts(lists, rounds), freq, norm) {
        assert(not_past(lists, positions_after(lists, rounds), freq));
        let at = positions_after(lists, rounds);
        assert(all_left(lists, at)) by {
            assert forall|i: int| 0 <= i < lists.len() implies 0 <= #[trigger] at[i]
                < lists[i].len() by {
                assert(covers(lists[i], freq, norm));
                let p = choose|p: int|
                    0 <= p < lists[i].len() && (#[trigger] lists[i][p]).0 >= freq && (
                    lists[i][p].1 as u64) <= (norm as u64);
                assert(not_past_in(lists[i], at[i], freq));
            }
        }
    }
}

/// No impact with a frequency of at least `freq` has been passed.
spec fn not_past_in(list: Seq<Impact>, at: int, freq: i32) -> bool {
    0 <= at && forall|p: int| 0 <= p < at && p < list.len() ==> (#[trigger] list[p]).0 < freq
}

spec fn not_past(lists: Seq<Seq<Impact>>, at: Seq<int>, freq: i32) -> bool {
    &&& at.len() == lists.len()
    &&& forall|i: int| 0 <= i < lists.len() ==> #[trigger] not_past_in(lists[i], at[i], freq)
}

proof fn lemma_skipped_below(list: Seq<Impact>, from: int, run: i32, freq: i32)
    requires
        not_past_in(list, from, freq),
        run < freq,
    ensures
        not_past_in(list, skipped(list, from, run), freq),
    decreases list.len() - from,
{
    if 0 <= from < list.len() && list[from].0 == run {
        lemma_skipped_below(list, from + 1, run, freq);
    }
}

proof fn lemma_covers_more(list: Seq<Impact>, added_freq: i32, added_norm: i64, freq: i32, norm: i64)
    requires
        covers(list, freq, norm),
        list.len() > 0 ==> list.last().0 <= added_freq,
    ensures
        covers(with_impact(list, added_freq, added_norm), freq, norm),
{
    let now = with_impact(list, added_freq, added_norm);
    let i = choose|i: int|
        0 <= i < list.len() && (#[trigger] list[i]).0 >= freq && (list[i].1 as u64) <= (
        norm as u64);
    if list.last().1 == added_norm && i == list.len() - 1 {
        assert(now[i] == (added_freq, added_norm));
    } else {
        assert(now[i] == list[i]);
    }
}

/// After each round a document is covered, or no impact that covers it has been passed.
proof fn lemma_cover(lists: Seq<Seq<Impact>>, rounds: nat, freq: i32, norm: i64, k: nat)
    requires
        lists.len() > 0,
        forall|i: int| 0 <= i < lists.len() ==> sorted_impacts(#[trigger] lists[i]),
        is_last_round(lists, rounds),
        forall|i: int| 0 <= i < lists.len() ==> covers(#[trigger] lists[i], freq, norm),
        k <= rounds,
    ensures
        covers(merged_impacts(lists, k), freq, norm) || not_past(
            lists,
            positions_after(lists, k),
            freq,
        ),
        k > 0 ==> merged_impacts(lists, k).len() > 0 && merged_impacts(lists, k).last().0
            == least_freq(lists, positions_after(lists, (k - 1) as nat), lists.len() as int),
    decreases k,
{
    let n = lists.len() as int;
    if k == 0 {
        let at = positions_after(lists, 0);
        assert forall|i: int| 0 <= i < n implies #[trigger] not_past_in(lists[i], at[i], freq) by {}
    } else {
        let j = (k - 1) as nat;
        lemma_cover(lists, rounds, freq, norm, j);
        let at = positions_after(lists, j);
        assert(all_left(lists, at));
        let list = merged_impacts(lists, j);
        let f = least_freq(lists, at, n);
        let g = greatest_norm(lists, at, n);
        lemma_least_is_among(lists, at, n);
        lemma_greatest_is_among(lists, at, n);
        let now = with_impact(list, f, g);
        assert(now == merged_impacts(lists, k));
        if covers(list, freq, norm) {
            if j > 0 {
                let before = positions_after(lists, (j - 1) as nat);
                assert(all_left(lists, before));
                lemma_rounds_move_on(lists, (j - 1) as nat);
                let last = least_freq(lists, before, n);
                lemma_least_is_among(lists, before, n);
                lemma_least_not_below(lists, before, at, last, n);
            }
            lemma_covers_more(list, f, g, freq, norm);
        } else if f >= freq {
            assert((g as u64) <= (norm as u64)) by {
                if g != 0 {
                    let i = choose|i: int| 0 <= i < n && lists[i][#[trigger] at[i]].1 == g;
                    assert(covers(lists[i], freq, norm));
                    let p = choose|p: int|
                        0 <= p < lists[i].len() && (#[trigger] lists[i][p]).0 >= freq && (
                        lists[i][p].1 as u64) <= (norm as u64);
                    assert(not_past_in(lists[i], at[i], freq));
                    assert(p >= at[i]);
                    assert(sorted_impacts(lists[i]));
                    assert((lists[i][at[i]].1 as u64) <= (lists[i][p].1 as u64));
                }
            }
            assert(now.last() == (f, g));
            assert(now[now.len() - 1].0 >= freq);
        } else {
            let next = positions_after(lists, k);
            assert forall|i: int| 0 <= i < n implies #[trigger] not_past_in(lists[i], next[i], freq) by {
                assert(not_past_in(lists[i], at[i], freq));
                lemma_skipped_below(lists[i], at[i], f, freq);
            }
        }
    }
}

proof fn lemma_skipped_moves(list: Seq<Impact>, from: int, freq: i32)
    ensures
        skipped(list, from, freq) >= from,
    decreases list.len() - from,
{
    if 0 <= from < list.len() && list[from].0 == freq {
        lemma_skipped_moves(list, from + 1, freq);
    }
}

/// A round does not go back in any list.
proof fn lemma_rounds_move_on(lists: Seq<Seq<Impact>>, k: nat)
    ensures
        forall|i: int|
            0 <= i < lists.len() ==> #[trigger] positions_after(lists, k)[i] <= positions_after(
                lists,
                k + 1,
            )[i],
{
    let at = positions_after(lists, k);
    let freq = least_freq(lists, at, lists.len() as int);
    assert forall|i: int| 0 <= i < lists.len() implies #[trigger] at[i] <= positions_after(
        lists,
        k + 1,
    )[i] by {
        lemma_skipped_moves(lists[i], at[i], freq);
    }
}

/// Where a phrase is, each of its terms is at the place that it has in the phrase: as far from the
/// first term as its offset is from that of the first term. `at` are these places among the
/// positions of the terms.
pub proof fn phrase_has_all_terms<P: PositionsEnum>(
    postings: Seq<PostingsAndPosition<P>>,
    x: int,
) -> (at: Seq<int>)
    requires
        postings.len() > 0,
        phrase_positions(postings).contains(x),
    ensures
        at.len() == postings.len(),
        forall|j: int|
            0 <= j < postings.len() ==> {
                let positions = postings[j].postings.positions();
                0 <= (#[trigger] at[j]) < positions.len() && positions[at[j]] == x
                    + postings[j].offset - postings[0].offset
            },
{
    let at = Seq::new(
        postings.len(),
        |j: int| place_of(postings[j].postings.positions(), x - postings[0].offset
            + postings[j].offset),
    );
    assert forall|j: int| 0 <= j < postings.len() implies {
        let positions = postings[j].postings.positions();
        0 <= (#[trigger] at[j]) < positions.len() && positions[at[j]] == x + postings[j].offset
            - postings[0].offset
    } by {
        let positions = postings[j].postings.positions();
        if j > 0 {
            assert(in_place(postings[0], postings[j], x));
        }
        assert(exists|i: int|
            0 <= i < positions.len() && #[trigger] positions[i] == x - postings[0].offset
                + postings[j].offset);
    }
    at
}

/// Where of some positions `p` is.
spec fn place_of(positions: Seq<i32>, p: int) -> int {
    choose|i: int| 0 <= i < positions.len() && #[trigger] positions[i] == p
}

/// A phrase is wherever each of its terms is at the place that it has in the phrase. `at` are such
/// places among the positions of the terms.
pub proof fn all_terms_make_the_phrase<P: PositionsEnum>(
    postings: Seq<PostingsAndPosition<P>>,
    at: Seq<int>,
)
    requires
        postings.len() > 0,
        at.len() == postings.len(),
        forall|j: int|
            0 <= j < postings.len() ==> {
                let positions = postings[j].postings.positions();
                0 <= (#[trigger] at[j]) < positions.len() && positions[at[j]]
                    == postings[0].postings.positions()[at[0]] + postings[j].offset
                    - postings[0].offset
            },
    ensures
        phrase_positions(postings).contains(postings[0].postings.positions()[at[0]] as int),
        phrase_at(postings, postings[0].postings.positions()[at[0]] as int),
{
    let x = postings[0].postings.positions()[at[0]] as int;
    assert forall|j: int| 1 <= j < postings.len() implies in_place(
        postings[0],
        #[trigger] postings[j],
        x,
    ) by {
        let positions = postings[j].postings.positions();
        assert(0 <= at[j] < positions.len());
        assert(positions[at[j]] == x - postings[0].offset + postings[j].offset);
    }
}

proof fn lemma_level_of(levels: Seq<ImpactLevel>, up_to: i32, from: int)
    requires
        0 <= from <= levels.len(),
    ensures
        ({
            let level = level_of(levels, up_to, from);
            &&& level == -1 || from <= level < levels.len() && levels[level].up_to >= up_to
            &&& forall|v: int|
                from <= v < levels.len() && (level == -1 || v < level) ==> (
                #[trigger] levels[v]).up_to < up_to
        }),
    decreases levels.len() - from,
{
    if from < levels.len() && levels[from].up_to < up_to {
        lemma_level_of(levels, up_to, from + 1);
    }
}

/// The lists are those of terms at the first level that covers a document.
proof fn lemma_useful_lists<I: Impacts>(impacts: Seq<I>, up_to: i32, n: int, k: int) -> (i: int)
    requires
        0 <= n <= impacts.len(),
        0 <= k < useful_lists(impacts, up_to, n).len(),
    ensures
        0 <= i < n,
        level_of(impacts[i].levels(), up_to, 0) != -1,
        useful_lists(impacts, up_to, n)[k] == impacts[i].levels()[level_of(
            impacts[i].levels(),
            up_to,
            0,
        )].impacts,
    decreases n,
{
    let rest = useful_lists(impacts, up_to, n - 1);
    if k < rest.len() {
        lemma_useful_lists(impacts, up_to, n - 1, k)
    } else {
        n - 1
    }
}

impl<I: Impacts> MergedImpacts<I> {
    /// No document up to the last one of a level has a greater score than the merged impacts allow:
    /// where, for each term, an impact at the first of its levels that goes as far has at least the
    /// frequency and at most the length of a document, one of the merged impacts has. Lengths are
    /// compared without their sign.
    pub proof fn merged_impacts_bound_every_document(
        &self,
        level: i32,
        r: Vec<Impact>,
        freq: i32,
        norm: i64,
    ) -> (k: int)
        requires
            self.lead_index < self.impacts@.len(),
            0 <= level < self.impacts@[self.lead_index as int].levels().len(),
            call_ensures(MergedImpacts::<I>::get_impacts, (self, level), r),
            (norm as u64) >= 1,
            forall|i: int, v: int|
                #![trigger self.impacts@[i].levels()[v]]
                0 <= i < self.impacts@.len() && 0 <= v < self.impacts@[i].levels().len() ==> {
                    let list = self.impacts@[i].levels()[v].impacts;
                    &&& forall|a: int, b: int|
                        0 <= a <= b < list.len() ==> list[a].0 <= list[b].0
                    &&& forall|a: int, b: int|
                        0 <= a <= b < list.len() ==> (list[a].1 as u64) <= (list[b].1 as u64)
                },
            forall|i: int, v: int|
                #![trigger self.impacts@[i].levels()[v]]
                0 <= i < self.impacts@.len() && 0 <= v < self.impacts@[i].levels().len()
                    && self.impacts@[i].levels()[v].up_to
                    >= self.impacts@[self.lead_index as int].levels()[level as int].up_to && (
                forall|w: int|
                    0 <= w < v ==> (#[trigger] self.impacts@[i].levels()[w]).up_to
                        < self.impacts@[self.lead_index as int].levels()[level as int].up_to)
                    ==> exists|p: int|
                    0 <= p < self.impacts@[i].levels()[v].impacts.len() && (
                    #[trigger] self.impacts@[i].levels()[v].impacts[p]).0 >= freq && (
                    self.impacts@[i].levels()[v].impacts[p].1 as u64) <= (norm as u64),
        ensures
            0 <= k < r@.len(),
            r@[k].0 >= freq,
            (r@[k].1 as u64) <= (norm as u64),
    {
        let up_to = self.impacts@[self.lead_index as int].levels()[level as int].up_to;
        let lists = self.lists(level as int);
        assert forall|j: int| 0 <= j < lists.len() implies covers(#[trigger] lists[j], freq, norm)
            && sorted_impacts(lists[j]) && lists[j].len() > 0 by {
            let i = lemma_useful_lists(self.impacts@, up_to, self.impacts@.len() as int, j);
            let levels = self.impacts@[i].levels();
            let v = level_of(levels, up_to, 0);
            lemma_level_of(levels, up_to, 0);
            assert(self.impacts@[i].levels()[v].up_to >= up_to);
            let p = choose|p: int|
                0 <= p < levels[v].impacts.len() && (#[trigger] levels[v].impacts[p]).0 >= freq && (
                levels[v].impacts[p].1 as u64) <= (norm as u64);
            assert(lists[j][p].0 >= freq);
        }
        if lists.len() == 0 {
            assert(1i64 as u64 == 1);
            0
        } else {
            let filled = lists.map_values(|l: Seq<Impact>| padded(l));
            assert(filled =~= lists);
            assert(covers(lists[0], freq, norm));
            if lists.len() > 1 {
                let rounds = choose|k: nat| #[trigger]
                    is_last_round(filled, k) && r@ == merged_impacts(filled, k);
                merged_impacts_cover(lists, rounds, freq, norm);
            }
            assert(covers(r@, freq, norm));
            choose|k: int|
                0 <= k < r@.len() && (#[trigger] r@[k]).0 >= freq && (r@[k].1 as u64) <= (
                norm as u64)
        }
    }
}

} // verus!
