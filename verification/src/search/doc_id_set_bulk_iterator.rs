//! Giving the documents of ranges to a collector.

use vstd::prelude::*;

use crate::search::collector::{docs_in, CollectionError, LeafCollector};
use crate::search::dense_conjunction_bulk_scorer::ended_early;
use crate::search::doc_id_set_iterator::filter_docs;
use crate::search::field_comparator::Scorable;
use crate::util::bits::Bits;

verus! {

/// The documents that are accepted: all of them without bits.
pub open spec fn accepted_docs<B: Bits>(docs: Set<int>, accept_docs: Option<&B>) -> Set<int> {
    match accept_docs {
        Some(bits) => filter_docs(docs, bits.bit_seq()),
        None => docs,
    }
}

/// Gives the documents of ranges to a collector.
pub trait DocIdSetBulkIterator {
    /// The documents.
    spec fn docs(&self) -> Set<int>;

    /// The internal invariant of the implementation.
    spec fn inv(&self) -> bool;

    /// Whether reading never fails.
    spec fn infallible(&self) -> bool;

    /// Gives the accepted documents of `[min, max)` to the collector, in increasing
    /// order.
    ///
    /// # Errors
    ///
    /// Whatever reading the documents or the collector fails with.
    fn iterate<C: LeafCollector, B: Bits, S: Scorable>(
        &mut self,
        collector: &mut C,
        accept_docs: Option<&B>,
        min: i32,
        max: i32,
        scorer: &mut S,
    ) -> (r: Result<(), CollectionError>)
        requires
            old(self).inv(),
            0 <= min <= max,
            accept_docs matches Some(bits) ==> forall|d: int| #[trigger]
                old(self).docs().contains(d) && min <= d < max ==> 0 <= d < bits.bit_seq().len(),
        ensures
            old(self).infallible() && old(collector).infallible() ==> r is Ok,
            final(self).infallible() == old(self).infallible(),
            final(collector).infallible() == old(collector).infallible(),
            r is Err ==> ended_early(
                *old(collector),
                *final(collector),
                accepted_docs(old(self).docs(), accept_docs),
                min as int,
                max as int,
            ),
            r is Ok ==> {
                &&& final(self).inv()
                &&& final(self).docs() == old(self).docs()
                &&& final(collector).collected() == old(collector).collected() + docs_in(
                    accepted_docs(old(self).docs(), accept_docs),
                    min as int,
                    max as int,
                )
            },
    ;
}

} // verus!
