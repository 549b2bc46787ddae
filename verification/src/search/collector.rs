//! Receivers of the documents that a search matches.

use vstd::prelude::*;

use crate::error::LuceneError;
use crate::search::doc_id_set_iterator::NO_MORE_DOCS;
use crate::util::fixed_bit_set::{is_next_set_bit, FixedBitSet};

verus! {

/// Why the collection of documents ends early.
#[derive(Debug)]
pub enum CollectionError {
    /// The collector needs no more documents of the current leaf.
    CollectionTerminated,
    /// An error was raised.
    Failed(LuceneError),
}

/// The elements of `docs` in `[from, to)`, in increasing order.
pub open spec fn docs_in(docs: Set<int>, from: int, to: int) -> Seq<int>
    decreases to - from,
{
    if to <= from {
        Seq::empty()
    } else if docs.contains(to - 1) {
        docs_in(docs, from, to - 1).push(to - 1)
    } else {
        docs_in(docs, from, to - 1)
    }
}

/// The documents of a range are those of its two parts.
pub proof fn docs_in_split(docs: Set<int>, from: int, mid: int, to: int)
    requires
        from <= mid <= to,
    ensures
        docs_in(docs, from, to) == docs_in(docs, from, mid) + docs_in(docs, mid, to),
    decreases to - mid,
{
    if mid < to {
        docs_in_split(docs, from, mid, to - 1);
        assert(docs_in(docs, from, to) =~= docs_in(docs, from, mid) + docs_in(docs, mid, to));
    } else {
        assert(docs_in(docs, from, to) =~= docs_in(docs, from, mid) + docs_in(docs, mid, to));
    }
}

/// A range without documents has no documents.
pub proof fn docs_in_none(docs: Set<int>, from: int, to: int)
    requires
        forall|d: int| from <= d < to ==> !#[trigger] docs.contains(d),
    ensures
        docs_in(docs, from, to) == Seq::<int>::empty(),
    decreases to - from,
{
    if from < to {
        docs_in_none(docs, from, to - 1);
    }
}

/// The documents of a range depend only on the range.
pub proof fn docs_in_same(a: Set<int>, b: Set<int>, from: int, to: int)
    requires
        forall|d: int| from <= d < to ==> a.contains(d) == #[trigger] b.contains(d),
    ensures
        docs_in(a, from, to) == docs_in(b, from, to),
    decreases to - from,
{
    if from < to {
        docs_in_same(a, b, from, to - 1);
        assert(a.contains(to - 1) == b.contains(to - 1));
    }
}

/// The documents of a range are all those of the set that are in it, in increasing order.
pub proof fn docs_in_are_exact(docs: Set<int>, from: int, to: int)
    ensures
        forall|d: int|
            from <= d < to && docs.contains(d) ==> #[trigger] docs_in(docs, from, to).contains(d),
        forall|i: int|
            0 <= i < docs_in(docs, from, to).len() ==> from <= #[trigger] docs_in(docs, from, to)[i]
                < to && docs.contains(docs_in(docs, from, to)[i]),
        forall|i: int, j: int|
            0 <= i < j < docs_in(docs, from, to).len() ==> #[trigger] docs_in(docs, from, to)[i]
                < #[trigger] docs_in(docs, from, to)[j],
    decreases to - from,
{
    if from < to {
        docs_in_are_exact(docs, from, to - 1);
        let all = docs_in(docs, from, to);
        let before = docs_in(docs, from, to - 1);
        assert forall|d: int| from <= d < to && docs.contains(d) implies #[trigger] all.contains(
            d,
        ) by {
            if d < to - 1 {
                assert(before.contains(d));
                let i = choose|i: int| 0 <= i < before.len() && before[i] == d;
                assert(all[i] == d);
            } else {
                assert(all[before.len() as int] == d);
            }
        }
        assert forall|i: int| 0 <= i < all.len() implies from <= #[trigger] all[i] < to
            && docs.contains(all[i]) by {
            if i < before.len() {
                assert(all[i] == before[i]);
            }
        }
        assert forall|i: int, j: int| 0 <= i < j < all.len() implies #[trigger] all[i]
            < #[trigger] all[j] by {
            assert(all[i] == before[i]);
            if j < before.len() {
                assert(all[j] == before[j]);
            }
        }
    }
}

/// One more document follows those before it.
pub proof fn docs_in_next(docs: Set<int>, from: int, doc: int, to: int)
    requires
        from <= doc < to,
        forall|d: int| doc < d < to ==> !#[trigger] docs.contains(d),
    ensures
        docs_in(docs, from, to) == if docs.contains(doc) {
            docs_in(docs, from, doc).push(doc)
        } else {
            docs_in(docs, from, doc)
        },
{
    docs_in_split(docs, from, doc + 1, to);
    docs_in_none(docs, doc + 1, to);
    assert(docs_in(docs, from, to) =~= docs_in(docs, from, doc + 1));
}

/// The documents that the set bits stand for, the first one for `base`.
pub open spec fn shifted_positions(bits: Seq<bool>, base: int) -> Set<int> {
    Set::new(|d: int| 0 <= d - base < bits.len() && bits[d - base])
}

/// The scores after `n` more documents were received with the same score.
pub open spec fn with_score(scores: Seq<i32>, n: int, score: i32) -> Seq<i32> {
    scores + Seq::new(n as nat, |i: int| score)
}

/// Documents that are received in two parts are received in one.
pub proof fn with_score_added(scores: Seq<i32>, m: int, n: int, score: i32)
    requires
        0 <= m,
        0 <= n,
    ensures
        with_score(with_score(scores, m, score), n, score) == with_score(scores, m + n, score),
        with_score(scores, m, score).push(score) == with_score(scores, m + 1, score),
        with_score(scores, 0, score) == scores,
{
    assert(with_score(with_score(scores, m, score), n, score) =~= with_score(
        scores,
        m + n,
        score,
    ));
    assert(with_score(scores, m, score).push(score) =~= with_score(scores, m + 1, score));
    assert(with_score(scores, 0, score) =~= scores);
}

/// Receives the documents that a search matches in one leaf. A score is an integer that is
/// ordered like it.
pub trait LeafCollector {
    /// The documents received so far.
    spec fn collected(&self) -> Seq<int>;

    /// The scores of the documents received so far.
    spec fn scores(&self) -> Seq<i32>;

    /// The ranges, each from its first document to its end (exclusive), that were
    /// received in one piece so far.
    spec fn ranges(&self) -> Seq<(int, int)>;

    /// Whether collection never ends early.
    spec fn infallible(&self) -> bool;

    /// The least score with which a document can still enter the result.
    spec fn least_score(&self) -> i32;

    /// Receives a document with its score.
    ///
    /// # Errors
    ///
    /// [`CollectionError::CollectionTerminated`] to end the collection of the
    /// leaf.
    fn collect(&mut self, doc: i32, score: i32) -> (r: Result<(), CollectionError>)
        ensures
            old(self).infallible() ==> r is Ok,
            final(self).infallible() == old(self).infallible(),
            r is Ok ==> {
                &&& final(self).collected() == old(self).collected().push(doc as int)
                &&& final(self).scores() == old(self).scores().push(score)
                &&& final(self).ranges() == old(self).ranges()
            },
            r is Err ==> final(self).collected() == old(self).collected() || final(
                self).collected() == old(self).collected().push(doc as int),
    ;

    /// Returns the least score with which a document can still enter the result.
    fn min_competitive_score(&self) -> (r: i32)
        ensures
            r == self.least_score(),
    ;

    /// Receives the documents `[min, max)`, all with the same score.
    ///
    /// # Errors
    ///
    /// The first error of [`Self::collect`].
    fn collect_range(&mut self, min: i32, max: i32, score: i32) -> (r: Result<
        (),
        CollectionError,
    >)
        ensures
            old(self).infallible() ==> r is Ok,
            final(self).infallible() == old(self).infallible(),
            r is Ok ==> {
                let n = if min < max {
                    max - min
                } else {
                    0
                };
                &&& final(self).collected() == old(self).collected() + Seq::new(
                    n as nat,
                    |i: int| min + i,
                )
                &&& final(self).scores() == with_score(old(self).scores(), n, score)
                &&& final(self).ranges() == old(self).ranges().push((min as int, max as int))
            },
            r is Err ==> exists|end: int|
                min <= end && (end <= max || end == min) && final(self).collected() == old(
                    self).collected() + #[trigger] docs_between(min as int, end),
    ;

    /// Receives the documents that the set bits stand for, the first bit for
    /// the document `base`, all with the same score.
    ///
    /// # Errors
    ///
    /// The first error of [`Self::collect`].
    fn collect_bits(&mut self, bits: &FixedBitSet, base: i32, score: i32) -> (r: Result<
        (),
        CollectionError,
    >)
        requires
            base >= 0,
            forall|i: int|
                0 <= i < bits@.len() && #[trigger] bits@[i] ==> base + i < NO_MORE_DOCS,
        ensures
            old(self).infallible() ==> r is Ok,
            final(self).infallible() == old(self).infallible(),
            r is Ok ==> {
                let docs = docs_in(
                    shifted_positions(bits@, base as int),
                    base as int,
                    base + bits@.len(),
                );
                &&& final(self).collected() == old(self).collected() + docs
                &&& final(self).scores() == with_score(
                    old(self).scores(),
                    docs.len() as int,
                    score,
                )
                &&& final(self).ranges() == old(self).ranges()
            },
            r is Err ==> exists|end: int|
                base <= end <= base + bits@.len() && final(self).collected() == old(
                    self).collected() + #[trigger] docs_in(
                    shifted_positions(bits@, base as int),
                    base as int,
                    end,
                ),
    {
        let ghost docs = shifted_positions(bits@, base as int);
        let ghost n = bits@.len();
        let mut next: Option<usize> = bits.next_set_bit(0);
        let ghost mut from: int = 0;
        proof {
            assert(old(self).collected() + docs_in(docs, base as int, base as int)
                =~= old(self).collected());
            with_score_added(self.scores(), 0, 0, score);
        }
        while next.is_some()
            invariant
                docs == shifted_positions(bits@, base as int),
                n == bits@.len(),
                base >= 0,
                self.ranges() == old(self).ranges(),
                0 <= from <= n,
                forall|i: int|
                    0 <= i < bits@.len() && #[trigger] bits@[i] ==> base + i < NO_MORE_DOCS,
                self.infallible() == old(self).infallible(),
                self.collected() == old(self).collected() + docs_in(
                    docs,
                    base as int,
                    base + from,
                ),
                self.scores() == with_score(
                    old(self).scores(),
                    docs_in(docs, base as int, base + from).len() as int,
                    score,
                ),
                is_next_set_bit(
                    bits@,
                    from,
                    (match next {
                        Some(i) => Some(i as int),
                        None => None,
                    }),
                ),
            decreases n - from,
        {
            let i: usize = match next {
                Some(i) => i,
                None => 0,
            };
            assert(bits@[i as int]);
            let ghost doc = base + i;
            proof {
                assert forall|d: int| base + from <= d < doc implies !#[trigger] docs.contains(d) by {
                    assert(!bits@[d - base]);
                }
                docs_in_none(docs, base + from, doc);
                docs_in_split(docs, base as int, base + from, doc);
                assert(docs_in(docs, base as int, doc) =~= docs_in(docs, base as int, base + from));
                docs_in_next(docs, base as int, doc, doc + 1);
                assert(docs.contains(doc));
                assert(self.collected().push(doc) =~= old(self).collected() + docs_in(
                    docs,
                    base as int,
                    doc + 1,
                ));
            }
            self.collect(base + i as i32, score)?;
            proof {
                with_score_added(
                    old(self).scores(),
                    docs_in(docs, base as int, base + from).len() as int,
                    0,
                    score,
                );
                assert(self.collected() =~= old(self).collected() + docs_in(
                    docs,
                    base as int,
                    doc + 1,
                ));
                from = i + 1;
            }
            next = bits.next_set_bit(i + 1);
        }
        proof {
            assert forall|d: int| base + from <= d < base + n implies !#[trigger] docs.contains(d) by {
                assert(!bits@[d - base]);
            }
            docs_in_none(docs, base + from, base + n);
            docs_in_split(docs, base as int, base + from, base + n);
            assert(self.collected() =~= old(self).collected() + docs_in(
                docs,
                base as int,
                base + n,
            ));
        }
        Ok(())
    }
}

/// The documents of `[from, to)`.
pub open spec fn docs_between(from: int, to: int) -> Seq<int> {
    Seq::new(
        (if from < to {
            to - from
        } else {
            0
        }) as nat,
        |i: int| from + i,
    )
}

/// Whether all documents that were received between two states have the given score.
pub open spec fn all_scored<C: LeafCollector>(before: C, after: C, score: i32) -> bool {
    after.scores() == with_score(
        before.scores(),
        after.collected().len() - before.collected().len(),
        score,
    )
}

/// A collector that keeps the documents it receives, and their scores.
pub struct DocCollector {
    docs: Vec<i32>,
    scores: Vec<i32>,
    least_score: i32,
    ranges: Ghost<Seq<(int, int)>>,
}

impl DocCollector {
    /// Creates a collector without documents that ignores documents with a score less
    /// than `least_score`.
    pub fn new(least_score: i32) -> (r: Self)
        ensures
            r.collected() == Seq::<int>::empty(),
            r.scores() == Seq::<i32>::empty(),
            r.ranges() == Seq::<(int, int)>::empty(),
            r.least_score() == least_score,
    {
        let r = DocCollector {
            docs: Vec::new(),
            scores: Vec::new(),
            least_score,
            ranges: Ghost(Seq::empty()),
        };
        assert(r.collected() =~= Seq::<int>::empty());
        r
    }

    /// Returns the documents received so far.
    pub fn docs(&self) -> (r: &[i32])
        ensures
            r@.map_values(|d: i32| d as int) == self.collected(),
    {
        self.docs.as_slice()
    }

    /// Returns the scores of the documents received so far.
    pub fn document_scores(&self) -> (r: &[i32])
        ensures
            r@ == self.scores(),
    {
        self.scores.as_slice()
    }
}

impl LeafCollector for DocCollector {
    closed spec fn collected(&self) -> Seq<int> {
        self.docs@.map_values(|d: i32| d as int)
    }

    open spec fn infallible(&self) -> bool {
        true
    }

    closed spec fn scores(&self) -> Seq<i32> {
        self.scores@
    }

    closed spec fn ranges(&self) -> Seq<(int, int)> {
        self.ranges@
    }

    closed spec fn least_score(&self) -> i32 {
        self.least_score
    }

    fn collect(&mut self, doc: i32, score: i32) -> (r: Result<(), CollectionError>)
        ensures
            final(self).least_score() == old(self).least_score(),
    {
        self.docs.push(doc);
        self.scores.push(score);
        assert(self.collected() =~= old(self).collected().push(doc as int));
        Ok(())
    }

    fn collect_range(&mut self, min: i32, max: i32, score: i32) -> (r: Result<
        (),
        CollectionError,
    >)
        ensures
            final(self).least_score() == old(self).least_score(),
    {
        let mut doc: i32 = min;
        proof {
            with_score_added(self.scores(), 0, 0, score);
        }
        while doc < max
            invariant
                min <= doc,
                doc <= max || doc == min,
                self.ranges() == old(self).ranges(),
                self.least_score() == old(self).least_score(),
                self.collected() =~= old(self).collected() + Seq::new(
                    (doc - min) as nat,
                    |i: int| min + i,
                ),
                self.scores() == with_score(old(self).scores(), doc - min, score),
            decreases max - doc,
        {
            self.collect(doc, score)?;
            proof {
                with_score_added(old(self).scores(), doc - min, 0, score);
            }
            doc += 1;
        }
        proof {
            self.ranges@ = self.ranges@.push((min as int, max as int));
        }
        Ok(())
    }

    fn min_competitive_score(&self) -> (r: i32) {
        self.least_score
    }
}

} // verus!
