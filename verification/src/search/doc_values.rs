//! Iteration over the documents that have values, and over blocks of documents
//! whose values are known to lie in some range.

use vstd::prelude::*;

use crate::error::LuceneError;
use crate::search::doc_id_set_iterator::{is_first_from, loaded_bits, DocIds, NO_MORE_DOCS};
use crate::util::fixed_bit_set::FixedBitSet;

verus! {

/// The abstract state of [`DocValues`].
#[verifier::ext_equal]
pub struct ValuesAt {
    /// The documents with values, and their values.
    pub table: Map<int, Seq<i64>>,
    /// The current document.
    pub doc: int,
}

impl ValuesAt {
    /// The documents, and the position among them.
    pub open spec fn ids(self) -> DocIds {
        DocIds { docs: self.table.dom(), doc: self.doc }
    }

    /// The position is valid, and the values of each document are in increasing
    /// order.
    pub open spec fn valid(self) -> bool {
        &&& self.ids().valid()
        &&& forall|d: int| #[trigger] self.table.dom().contains(d) ==> ascending(self.table[d])
    }

    /// The state after moving to `doc`.
    pub open spec fn at(self, doc: int) -> ValuesAt {
        ValuesAt { table: self.table, doc }
    }
}

/// The values are in increasing order.
pub open spec fn ascending(values: Seq<i64>) -> bool {
    forall|i: int, j: int|
        0 <= i <= j < values.len() ==> #[trigger] values[i] <= #[trigger] values[j]
}

/// Some value is in `[min, max]`.
pub open spec fn any_in_range(values: Seq<i64>, min: i64, max: i64) -> bool {
    exists|k: int| 0 <= k < values.len() && min <= #[trigger] values[k] <= max
}

/// The documents with a value in `[min, max]`.
pub open spec fn docs_in_range(table: Map<int, Seq<i64>>, min: i64, max: i64) -> Set<int> {
    Set::new(|d: int| table.dom().contains(d) && any_in_range(table[d], min, max))
}

/// The values of documents: numbers, or the ordinals of terms.
pub trait DocValues {
    /// The values of all documents, and the current document.
    spec fn view(&self) -> ValuesAt;

    /// The internal invariant of the implementation.
    spec fn inv(&self) -> bool;

    /// Whether reading never fails.
    spec fn infallible(&self) -> bool;

    /// Returns the current document: -1 before the first one, [`NO_MORE_DOCS`]
    /// after the last one.
    fn doc_id(&self) -> (r: i32)
        requires
            self.inv(),
        ensures
            r == self.view().doc,
            self.view().valid(),
    ;

    /// Moves to the next document that has values, and returns it.
    ///
    /// # Errors
    ///
    /// Whatever reading the next document fails with.
    fn next_doc(&mut self) -> (r: Result<i32, LuceneError>)
        requires
            old(self).inv(),
            old(self).view().doc < NO_MORE_DOCS,
        ensures
            old(self).infallible() ==> r is Ok,
            final(self).infallible() == old(self).infallible(),
            r matches Ok(d) ==> {
                &&& final(self).inv()
                &&& final(self).view().valid()
                &&& final(self).view() == old(self).view().at(d as int)
                &&& is_first_from(
                    old(self).view().table.dom(),
                    old(self).view().doc + 1,
                    d as int,
                )
            },
    ;

    /// Moves to the first document at or after `target` that has values, and
    /// returns it.
    ///
    /// # Errors
    ///
    /// Whatever reading that document fails with.
    fn advance(&mut self, target: i32) -> (r: Result<i32, LuceneError>)
        requires
            old(self).inv(),
            old(self).view().doc < target,
        ensures
            old(self).infallible() ==> r is Ok,
            final(self).infallible() == old(self).infallible(),
            r matches Ok(d) ==> {
                &&& final(self).inv()
                &&& final(self).view().valid()
                &&& final(self).view() == old(self).view().at(d as int)
                &&& is_first_from(old(self).view().table.dom(), target as int, d as int)
            },
    ;

    /// Returns the number of values of the current document.
    ///
    /// # Errors
    ///
    /// Whatever reading the document fails with.
    fn value_count(&mut self) -> (r: Result<usize, LuceneError>)
        requires
            old(self).inv(),
            old(self).view().table.dom().contains(old(self).view().doc),
        ensures
            old(self).infallible() ==> r is Ok,
            final(self).infallible() == old(self).infallible(),
            final(self).view() == old(self).view(),
            r matches Ok(n) ==> {
                &&& final(self).inv()
                &&& n == old(self).view().table[old(self).view().doc].len()
            },
    ;

    /// Returns the value at `index` of the current document. The values of a
    /// document are read one after the other, from the first one on.
    ///
    /// # Errors
    ///
    /// Whatever reading the value fails with.
    fn value(&mut self, index: usize) -> (r: Result<i64, LuceneError>)
        requires
            old(self).inv(),
            old(self).view().table.dom().contains(old(self).view().doc),
            index < old(self).view().table[old(self).view().doc].len(),
        ensures
            old(self).infallible() ==> r is Ok,
            final(self).infallible() == old(self).infallible(),
            final(self).view() == old(self).view(),
            r matches Ok(v) ==> {
                &&& final(self).inv()
                &&& v == old(self).view().table[old(self).view().doc][index as int]
            },
    ;

    /// Loads the documents from the current one up to `up_to` (exclusive) into
    /// `bit_set`, shifted down by `offset`, and moves to the first document at or
    /// after `up_to`.
    ///
    /// # Errors
    ///
    /// The first error of [`Self::next_doc`].
    fn into_bit_set(&mut self, up_to: i32, bit_set: &mut FixedBitSet, offset: i32) -> (r: Result<
        (),
        LuceneError,
    >)
        requires
            old(self).inv(),
            old(self).view().valid(),
            old(self).view().doc >= 0,
            forall|d: int| #[trigger]
                old(self).view().table.dom().contains(d) && old(self).view().doc <= d < up_to
                    ==> 0 <= d - offset < old(bit_set)@.len() && d - offset <= i32::MAX,
        ensures
            old(self).infallible() ==> r is Ok,
            final(self).infallible() == old(self).infallible(),
            final(bit_set)@.len() == old(bit_set)@.len(),
            r is Ok ==> {
                &&& final(self).inv()
                &&& final(self).view().valid()
                &&& final(self).view() == old(self).view().at(final(self).view().doc)
                &&& is_first_from(
                    old(self).view().table.dom(),
                    (if up_to >= old(self).view().doc {
                        up_to as int
                    } else {
                        old(self).view().doc
                    }),
                    final(self).view().doc,
                )
                &&& final(bit_set)@ == loaded_bits(
                    old(bit_set)@,
                    old(self).view().table.dom(),
                    old(self).view().doc,
                    up_to as int,
                    offset as int,
                )
            },
    {
        let ghost docs = old(self).view().table.dom();
        let ghost from = old(self).view().doc;
        let mut doc: i32 = self.doc_id();
        assert(self.view().ids().docs == docs);
        assert(is_first_from(docs, doc as int, doc as int));
        assert(bit_set@ =~= loaded_bits(
            old(bit_set)@,
            docs,
            from,
            (if doc <= up_to { doc as int } else { up_to as int }),
            offset as int,
        ));
        while doc < up_to
            invariant
                docs == old(self).view().table.dom(),
                from == old(self).view().doc,
                old(self).view().valid(),
                self.inv(),
                self.view().valid(),
                self.infallible() == old(self).infallible(),
                self.view() == old(self).view().at(doc as int),
                doc >= from,
                from >= 0,
                is_first_from(docs, doc as int, doc as int),
                doc < up_to || is_first_from(
                    docs,
                    (if up_to >= from {
                        up_to as int
                    } else {
                        from
                    }),
                    doc as int,
                ),
                forall|d: int| #[trigger]
                    docs.contains(d) && from <= d < up_to ==> 0 <= d - offset < bit_set@.len()
                        && d - offset <= i32::MAX,
                bit_set@.len() == old(bit_set)@.len(),
                bit_set@ == loaded_bits(
                    old(bit_set)@,
                    docs,
                    from,
                    (if doc <= up_to { doc as int } else { up_to as int }),
                    offset as int,
                ),
            decreases NO_MORE_DOCS - doc,
        {
            assert(docs.contains(doc as int));
            bit_set.set((doc - offset) as usize);
            doc = self.next_doc()?;
            assert(bit_set@ =~= loaded_bits(
                old(bit_set)@,
                docs,
                from,
                (if doc <= up_to { doc as int } else { up_to as int }),
                offset as int,
            ));
        }
        assert(bit_set@ =~= loaded_bits(old(bit_set)@, docs, from, up_to as int, offset as int));
        Ok(())
    }

    /// Returns the end (exclusive) of a run of consecutive documents with values that
    /// starts at the current one.
    ///
    /// # Errors
    ///
    /// Whatever reading the documents fails with.
    fn doc_id_run_end(&self) -> (r: Result<i32, LuceneError>)
        requires
            self.inv(),
            self.view().doc < NO_MORE_DOCS,
        ensures
            self.infallible() ==> r is Ok,
            r matches Ok(end) ==> {
                &&& end > self.view().doc
                &&& self.view().table.dom().contains(self.view().doc) ==> forall|d: int|
                    self.view().doc <= d < end ==> #[trigger] self.view().table.dom().contains(d)
            },
        default_ensures
            r matches Ok(end) && end == self.view().doc + 1,
    {
        Ok(self.doc_id() + 1)
    }
}

/// How the documents of a block are known to match a range of values.
#[derive(Clone, Copy, Debug, PartialEq, Eq, Structural)]
pub enum Match {
    /// Every document has a value in the range.
    Yes,
    /// Every value of the documents is in the range, but some documents may have
    /// none.
    YesIfPresent,
    /// Nothing is known.
    Maybe,
}

/// The abstract state of [`SkipBlocks`].
#[verifier::ext_equal]
pub struct BlocksAt {
    /// The documents of the blocks that may match, and the current one.
    pub ids: DocIds,
    /// What is known from a document on.
    pub kinds: Map<int, Match>,
    /// The end (exclusive) of the block of a document.
    pub block_ends: Map<int, int>,
    /// The end (exclusive) of the documents, from a document on, of which the
    /// same is known.
    pub run_ends: Map<int, int>,
}

impl BlocksAt {
    /// The position is valid, and runs and blocks end after the document.
    pub open spec fn valid(self) -> bool {
        &&& self.ids.valid()
        &&& forall|d: int| #[trigger]
            self.ids.docs.contains(d) ==> {
                &&& d < self.block_ends[d] <= NO_MORE_DOCS
                &&& d < self.run_ends[d] <= NO_MORE_DOCS
            }
    }

    /// The state after moving to `doc`.
    pub open spec fn at(self, doc: int) -> BlocksAt {
        BlocksAt { ids: self.ids.at(doc), ..self }
    }

    /// The blocks say the truth of the documents with a value in `[min, max]`.
    pub open spec fn describes(self, table: Map<int, Seq<i64>>, min: i64, max: i64) -> bool {
        let hits = docs_in_range(table, min, max);
        &&& forall|d: int| #[trigger] hits.contains(d) ==> self.ids.docs.contains(d)
        &&& forall|d: int, x: int|
            self.ids.docs.contains(d) && #[trigger] self.kinds[d] == Match::Yes && d <= x
                < self.run_ends[d] ==> #[trigger] hits.contains(x)
        &&& forall|d: int, x: int|
            self.ids.docs.contains(d) && #[trigger] self.kinds[d] == Match::YesIfPresent && d <= x
                < self.run_ends[d] && #[trigger] table.dom().contains(x) ==> hits.contains(x)
    }
}

/// An iterator over the documents of the blocks that may match a range of values.
pub trait SkipBlocks {
    /// The documents of the blocks, and what is known of them.
    spec fn view(&self) -> BlocksAt;

    /// The internal invariant of the implementation.
    spec fn inv(&self) -> bool;

    /// Whether reading never fails.
    spec fn infallible(&self) -> bool;

    /// Returns the current document.
    fn doc_id(&self) -> (r: i32)
        requires
            self.inv(),
        ensures
            r == self.view().ids.doc,
            self.view().valid(),
    ;

    /// Moves to the first document at or after `target`, and returns it.
    ///
    /// # Errors
    ///
    /// Whatever reading the blocks fails with.
    fn advance(&mut self, target: i32) -> (r: Result<i32, LuceneError>)
        requires
            old(self).inv(),
            old(self).view().ids.doc < target,
        ensures
            old(self).infallible() ==> r is Ok,
            final(self).infallible() == old(self).infallible(),
            r matches Ok(d) ==> {
                &&& final(self).inv()
                &&& final(self).view().valid()
                &&& final(self).view() == old(self).view().at(d as int)
                &&& is_first_from(old(self).view().ids.docs, target as int, d as int)
            },
    ;

    /// Returns what is known of the current document.
    fn get_match(&self) -> (r: Match)
        requires
            self.inv(),
            self.view().ids.docs.contains(self.view().ids.doc),
        ensures
            r == self.view().kinds[self.view().ids.doc],
    ;

    /// Returns the end (exclusive) of the current block.
    fn block_end(&self) -> (r: i32)
        requires
            self.inv(),
            self.view().ids.docs.contains(self.view().ids.doc),
        ensures
            r == self.view().block_ends[self.view().ids.doc],
    ;

    /// Returns the end (exclusive) of the documents, from the current one on, of
    /// which the same is known.
    ///
    /// # Errors
    ///
    /// Whatever reading the blocks fails with.
    fn doc_id_run_end(&self) -> (r: Result<i32, LuceneError>)
        requires
            self.inv(),
            self.view().ids.docs.contains(self.view().ids.doc),
        ensures
            self.infallible() ==> r is Ok,
            r matches Ok(end) ==> end == self.view().run_ends[self.view().ids.doc],
    ;
}

/// What is known of the values of blocks of documents.
pub trait DocValuesSkipper: Sized {
    /// The blocks that may match a range.
    type Blocks: SkipBlocks;

    /// The values that the blocks summarise.
    spec fn table(&self) -> Map<int, Seq<i64>>;

    /// Whether reading never fails.
    spec fn infallible(&self) -> bool;

    /// A number that no value is less than.
    spec fn lower_bound(&self) -> i64;

    /// A number that no value is greater than.
    spec fn upper_bound(&self) -> i64;

    /// Returns a number that no value is less than.
    fn global_min_value(&self) -> (r: i64)
        ensures
            r == self.lower_bound(),
            forall|d: int, k: int|
                self.table().dom().contains(d) && 0 <= k < self.table()[d].len()
                    ==> #[trigger] self.table()[d][k] >= r,
    ;

    /// Returns a number that no value is greater than.
    fn global_max_value(&self) -> (r: i64)
        ensures
            r == self.upper_bound(),
            forall|d: int, k: int|
                self.table().dom().contains(d) && 0 <= k < self.table()[d].len()
                    ==> #[trigger] self.table()[d][k] <= r,
    ;

    /// Returns the blocks that may match `[min, max]`.
    fn into_blocks(self, min: i64, max: i64) -> (r: Self::Blocks)
        ensures
            r.inv(),
            r.infallible() == self.infallible(),
            r.view().valid(),
            r.view().ids.doc == -1,
            r.view().describes(self.table(), min, max),
    ;
}

/// A document is in a range exactly when one of its values is, the ends included.
pub proof fn ranges_hold_values(table: Map<int, Seq<i64>>, min: i64, max: i64, d: int)
    ensures
        docs_in_range(table, min, max).contains(d) <==> table.dom().contains(d) && exists|k: int|
            0 <= k < table[d].len() && min <= #[trigger] table[d][k] <= max,
{
}

} // verus!
