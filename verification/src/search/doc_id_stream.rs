//! Streams of documents.

use vstd::prelude::*;

use crate::error::LuceneError;
use crate::search::collector::CollectionError;
use crate::search::doc_id_set_iterator::NO_MORE_DOCS;
use crate::util::text::{decimal_int, with_two_numbers};

verus! {

/// Receives integers, and may fail.
pub trait CheckedIntConsumer<E> {
    /// The integers received so far.
    spec fn consumed(&self) -> Seq<i32>;

    /// Whether receiving never fails.
    spec fn infallible(&self) -> bool;

    /// Receives an integer.
    ///
    /// # Errors
    ///
    /// Whatever the consumer fails with.
    fn accept(&mut self, value: i32) -> (r: Result<(), E>)
        ensures
            old(self).infallible() ==> r is Ok,
            final(self).infallible() == old(self).infallible(),
            r is Ok ==> final(self).consumed() == old(self).consumed().push(value),
    ;
}

/// The number of documents of an increasing list that are below `up_to`.
pub open spec fn count_below(docs: Seq<i32>, up_to: int) -> int
    decreases docs.len(),
{
    if docs.len() == 0 {
        0
    } else if docs.last() < up_to {
        docs.len() as int
    } else {
        count_below(docs.drop_last(), up_to)
    }
}

/// A stream of documents in increasing order.
pub trait DocIdStream {
    /// The documents that are left.
    spec fn left(&self) -> Seq<i32>;

    /// Whether reading never fails.
    spec fn infallible(&self) -> bool;

    /// Gives the documents below `up_to` to a consumer.
    ///
    /// # Errors
    ///
    /// Whatever reading the documents or the consumer fails with.
    fn for_each_up_to<C: CheckedIntConsumer<CollectionError>>(
        &mut self,
        up_to: i32,
        consumer: &mut C,
    ) -> (r: Result<(), CollectionError>)
        ensures
            old(self).infallible() && old(consumer).infallible() ==> r is Ok,
            final(self).infallible() == old(self).infallible(),
            final(consumer).infallible() == old(consumer).infallible(),
            r is Ok ==> {
                let n = count_below(old(self).left(), up_to as int);
                &&& final(self).left() == old(self).left().skip(n)
                &&& final(consumer).consumed() == old(consumer).consumed() + old(
                    self,
                ).left().take(n)
            },
    ;

    /// Gives all documents to a consumer.
    ///
    /// # Errors
    ///
    /// Whatever reading the documents or the consumer fails with.
    fn for_each<C: CheckedIntConsumer<CollectionError>>(&mut self, consumer: &mut C) -> (r: Result<
        (),
        CollectionError,
    >)
        ensures
            old(self).infallible() && old(consumer).infallible() ==> r is Ok,
            final(self).infallible() == old(self).infallible(),
            final(consumer).infallible() == old(consumer).infallible(),
            r is Ok ==> {
                let n = count_below(old(self).left(), NO_MORE_DOCS as int);
                &&& final(self).left() == old(self).left().skip(n)
                &&& final(consumer).consumed() == old(consumer).consumed() + old(
                    self,
                ).left().take(n)
            },
    {
        self.for_each_up_to(NO_MORE_DOCS, consumer)
    }

    /// Passes the documents below `up_to`, and returns their number.
    ///
    /// # Errors
    ///
    /// Whatever reading the documents fails with.
    fn count_up_to(&mut self, up_to: i32) -> (r: Result<i32, LuceneError>)
        requires
            old(self).left().len() <= i32::MAX,
        ensures
            old(self).infallible() ==> r is Ok,
            final(self).infallible() == old(self).infallible(),
            r matches Ok(n) ==> n == count_below(old(self).left(), up_to as int)
                && final(self).left() == old(self).left().skip(n as int),
    ;

    /// Passes all documents, and returns their number.
    ///
    /// # Errors
    ///
    /// Whatever reading the documents fails with.
    fn count(&mut self) -> (r: Result<i32, LuceneError>)
        requires
            old(self).left().len() <= i32::MAX,
        ensures
            old(self).infallible() ==> r is Ok,
            final(self).infallible() == old(self).infallible(),
            r matches Ok(n) ==> n == count_below(old(self).left(), NO_MORE_DOCS as int)
                && final(self).left() == old(self).left().skip(n as int),
    {
        self.count_up_to(NO_MORE_DOCS)
    }

    /// Copies documents below `up_to` into `array`, which is not empty, and returns how
    /// many; 0 when there are none left.
    fn into_array_up_to(&mut self, up_to: i32, array: &mut Vec<i32>) -> (r: usize)
        requires
            old(array)@.len() > 0,
        ensures
            final(self).infallible() == old(self).infallible(),
            final(array)@.len() == old(array)@.len(),
            r <= old(array)@.len(),
            r <= count_below(old(self).left(), up_to as int),
            r == 0 <==> count_below(old(self).left(), up_to as int) == 0,
            final(array)@ == old(self).left().take(r as int) + old(array)@.skip(r as int),
            final(self).left() == old(self).left().skip(r as int),
    ;

    /// Copies documents into `array`, which is not empty, and returns how many; 0 when
    /// there are none left.
    fn into_array(&mut self, array: &mut Vec<i32>) -> (r: usize)
        requires
            old(array)@.len() > 0,
        ensures
            final(self).infallible() == old(self).infallible(),
            final(array)@.len() == old(array)@.len(),
            r <= old(array)@.len(),
            r <= count_below(old(self).left(), NO_MORE_DOCS as int),
            r == 0 <==> count_below(old(self).left(), NO_MORE_DOCS as int) == 0,
            final(array)@ == old(self).left().take(r as int) + old(array)@.skip(r as int),
            final(self).left() == old(self).left().skip(r as int),
    {
        self.into_array_up_to(NO_MORE_DOCS, array)
    }

    /// Returns whether documents may be left: `false` only when there are none.
    fn may_have_remaining(&self) -> (r: bool)
        ensures
            self.left().len() > 0 ==> r,
    ;
}

/// The documents `[min, max)` in increasing order.
pub open spec fn doc_list(min: int, max: int) -> Seq<i32> {
    Seq::new(
        if min < max {
            (max - min) as nat
        } else {
            0
        },
        |i: int| (min + i) as i32,
    )
}

/// A stream of consecutive documents.
#[derive(Debug, Clone, Copy)]
pub struct RangeDocIdStream {
    up_to: i32,
    max: i32,
}

proof fn lemma_count_below(min: int, max: int, up_to: int)
    requires
        i32::MIN <= min,
        max <= i32::MAX,
    ensures
        count_below(doc_list(min, max), up_to) == if up_to <= min || max <= min {
            0
        } else if up_to <= max {
            up_to - min
        } else {
            max - min
        },
    decreases max - min,
{
    if min < max {
        let docs = doc_list(min, max);
        assert(docs.last() == max - 1);
        if max - 1 >= up_to {
            assert(docs.drop_last() =~= doc_list(min, max - 1));
            lemma_count_below(min, max - 1, up_to);
        }
    }
}

impl RangeDocIdStream {
    /// Creates a stream of the documents `[min, max)`.
    ///
    /// # Errors
    ///
    /// [`LuceneError::IllegalArgument`] if the range is empty.
    pub fn new(min: i32, max: i32) -> (r: Result<Self, LuceneError>)
        ensures
            r is Ok <==> min < max,
            r matches Err(e) ==> e.is_illegal_argument(
                "min = "@ + decimal_int(min as int) + " >= max = "@ + decimal_int(max as int),
            ),
            r matches Ok(s) ==> s.left() == doc_list(min as int, max as int) && s.infallible(),
    {
        if min >= max {
            return Err(
                LuceneError::IllegalArgument(
                    with_two_numbers("min = ", min as i64, " >= max = ", max as i64),
                ),
            );
        }
        Ok(RangeDocIdStream { up_to: min, max })
    }

    /// Where the stream is after the documents below `up_to`.
    spec fn clamped(&self, up_to: i32) -> int {
        if up_to <= self.up_to || self.max <= self.up_to {
            self.up_to as int
        } else if up_to <= self.max {
            up_to as int
        } else {
            self.max as int
        }
    }

    proof fn lemma_step(&self, to: int)
        requires
            self.up_to <= to,
            to <= self.max || to == self.up_to,
        ensures
            self.left().skip(to - self.up_to) == doc_list(to, self.max as int),
            self.left().take(to - self.up_to) == doc_list(self.up_to as int, to),
    {
        assert(self.left().skip(to - self.up_to) =~= doc_list(to, self.max as int));
        assert(self.left().take(to - self.up_to) =~= doc_list(self.up_to as int, to));
    }
}

impl DocIdStream for RangeDocIdStream {
    closed spec fn left(&self) -> Seq<i32> {
        doc_list(self.up_to as int, self.max as int)
    }

    open spec fn infallible(&self) -> bool {
        true
    }

    fn for_each_up_to<C: CheckedIntConsumer<CollectionError>>(
        &mut self,
        up_to: i32,
        consumer: &mut C,
    ) -> (r: Result<(), CollectionError>) {
        proof {
            lemma_count_below(self.up_to as int, self.max as int, up_to as int);
            self.lemma_step(self.clamped(up_to));
        }
        if up_to > self.up_to && self.max > self.up_to {
            let end: i32 = if up_to <= self.max {
                up_to
            } else {
                self.max
            };
            let mut doc: i32 = self.up_to;
            assert(consumer.consumed() =~= old(consumer).consumed() + doc_list(
                self.up_to as int,
                doc as int,
            ));
            while doc < end
                invariant
                    *self == *old(self),
                    self.up_to <= doc <= end,
                    end <= self.max,
                    consumer.infallible() == old(consumer).infallible(),
                    consumer.consumed() == old(consumer).consumed() + doc_list(
                        self.up_to as int,
                        doc as int,
                    ),
                decreases end - doc,
            {
                consumer.accept(doc)?;
                doc += 1;
                assert(consumer.consumed() =~= old(consumer).consumed() + doc_list(
                    self.up_to as int,
                    doc as int,
                ));
            }
            self.up_to = end;
        } else {
            assert(consumer.consumed() =~= old(consumer).consumed() + self.left().take(0));
            assert(self.left().skip(0) =~= self.left());
        }
        Ok(())
    }

    fn count_up_to(&mut self, up_to: i32) -> (r: Result<i32, LuceneError>) {
        proof {
            lemma_count_below(self.up_to as int, self.max as int, up_to as int);
            self.lemma_step(self.clamped(up_to));
        }
        if up_to > self.up_to && self.max > self.up_to {
            let end: i32 = if up_to <= self.max {
                up_to
            } else {
                self.max
            };
            assert(self.left().len() == self.max - self.up_to);
            let count: i32 = end - self.up_to;
            self.up_to = end;
            Ok(count)
        } else {
            assert(self.left().skip(0) =~= self.left());
            Ok(0)
        }
    }

    fn into_array_up_to(&mut self, up_to: i32, array: &mut Vec<i32>) -> (r: usize)
        ensures
            r == if count_below(old(self).left(), up_to as int) < old(array)@.len() {
                count_below(old(self).left(), up_to as int)
            } else {
                old(array)@.len() as int
            },
    {
        proof {
            lemma_count_below(self.up_to as int, self.max as int, up_to as int);
        }
        let start: i32 = self.up_to;
        let mut count: usize = 0;
        while count < array.len() && self.up_to < self.max && self.up_to < up_to
            invariant
                old(self).up_to == start,
                self.max == old(self).max,
                self.up_to == start + count,
                start <= self.max || count == 0,
                self.up_to <= self.max || count == 0,
                self.up_to <= up_to || count == 0,
                count <= array@.len(),
                array@.len() == old(array)@.len(),
                array@ =~= doc_list(start as int, self.up_to as int) + old(array)@.skip(
                    count as int,
                ),
            decreases array.len() - count,
        {
            array.set(count, self.up_to);
            self.up_to = self.up_to + 1;
            count += 1;
        }
        proof {
            old(self).lemma_step(self.up_to as int);
        }
        count
    }

    fn may_have_remaining(&self) -> (r: bool)
        ensures
            r <==> self.left().len() > 0,
    {
        self.up_to < self.max
    }
}

/// Reading a stream in two steps gives the same documents as reading it in one.
pub proof fn stream_steps_add_up(docs: Seq<i32>, mid: int, end: int)
    requires
        mid <= end,
        forall|i: int, k: int| 0 <= i <= k < docs.len() ==> docs[i] <= docs[k],
    ensures
        ({
            let first = count_below(docs, mid);
            let rest = docs.skip(first);
            &&& 0 <= first <= count_below(docs, end) <= docs.len()
            &&& docs.take(first) + rest.take(count_below(rest, end)) == docs.take(
                count_below(docs, end),
            )
            &&& rest.skip(count_below(rest, end)) == docs.skip(count_below(docs, end))
        }),
{
    lemma_count(docs, mid);
    lemma_count(docs, end);
    let first = count_below(docs, mid);
    let rest = docs.skip(first);
    lemma_count(rest, end);
    let n = count_below(rest, end);
    let total = count_below(docs, end);
    if total < first {
        assert(docs[total] < mid);
    }
    if first + n < total {
        assert(rest[n] == docs[first + n]);
    }
    if first + n > total {
        assert(rest[total - first] == docs[total]);
    }
    assert(docs.take(first) + rest.take(n) =~= docs.take(total));
    assert(rest.skip(n) =~= docs.skip(total));
}

/// The counted documents are those below `up_to`.
proof fn lemma_count(docs: Seq<i32>, up_to: int)
    requires
        forall|i: int, k: int| 0 <= i <= k < docs.len() ==> docs[i] <= docs[k],
    ensures
        0 <= count_below(docs, up_to) <= docs.len(),
        forall|i: int| 0 <= i < count_below(docs, up_to) ==> #[trigger] docs[i] < up_to,
        forall|i: int| count_below(docs, up_to) <= i < docs.len() ==> #[trigger] docs[i] >= up_to,
    decreases docs.len(),
{
    if docs.len() > 0 {
        if docs.last() >= up_to {
            let rest = docs.drop_last();
            lemma_count(rest, up_to);
            assert forall|i: int| count_below(docs, up_to) <= i < docs.len() implies #[trigger] docs[i]
                >= up_to by {
                if i < docs.len() - 1 {
                    assert(rest[i] == docs[i]);
                }
            }
            assert forall|i: int| 0 <= i < count_below(docs, up_to) implies #[trigger] docs[i]
                < up_to by {
                assert(rest[i] == docs[i]);
            }
        }
    }
}

} // verus!
