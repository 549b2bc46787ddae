//! Sets of documents.

use vstd::prelude::*;

use crate::error::LuceneError;
use crate::search::doc_id_set_iterator::{
    doc_range, AllDocIdSetIterator, DocIdSetIterator, DocIds, EmptyDocIdSetIterator,
};
use crate::util::bits::{Bits, MatchAllBits};
use crate::util::text::decimal_int;

verus! {

/// A set of documents.
pub trait DocIdSet {
    /// Iterates over the documents.
    type I: DocIdSetIterator;

    /// Gives random access to the documents.
    type B: Bits;

    /// The documents.
    spec fn docs(&self) -> Set<int>;

    /// Whether the documents can be read.
    spec fn readable(&self) -> bool;

    /// The number of bytes that the set uses.
    spec fn bytes_used(&self) -> i64;

    /// Returns an iterator over the documents.
    ///
    /// # Errors
    ///
    /// Whatever reading the documents fails with.
    fn iterator(&self) -> (r: Result<Self::I, LuceneError>)
        ensures
            r is Ok <==> self.readable(),
            r matches Ok(it) ==> it.inv() && it.view() == (DocIds { docs: self.docs(), doc: -1 }),
    ;

    /// Returns random access to the documents; `None` when there is none.
    ///
    /// # Errors
    ///
    /// Whatever reading the documents fails with.
    fn bits(&self) -> (r: Result<Option<Self::B>, LuceneError>)
        ensures
            r matches Ok(Some(bits)) ==> forall|d: int|
                0 <= d < bits.bit_seq().len() ==> #[trigger] bits.bit_seq()[d]
                    == self.docs().contains(d),
        default_ensures
            r matches Ok(None),
    {
        Ok(None)
    }

    /// Returns the number of bytes that the set uses.
    fn ram_bytes_used(&self) -> (r: i64)
        ensures
            r == self.bytes_used(),
    ;
}

/// The set without documents.
#[derive(Debug, Clone, Copy)]
pub struct EmptyDocIdSet;

impl Default for EmptyDocIdSet {
    fn default() -> (r: Self)
        ensures
            r.docs() == Set::<int>::empty(),
    {
        EmptyDocIdSet
    }
}

impl DocIdSet for EmptyDocIdSet {
    type I = EmptyDocIdSetIterator;

    type B = MatchAllBits;

    open spec fn docs(&self) -> Set<int> {
        Set::empty()
    }

    open spec fn readable(&self) -> bool {
        true
    }

    open spec fn bytes_used(&self) -> i64 {
        0
    }

    fn iterator(&self) -> (r: Result<EmptyDocIdSetIterator, LuceneError>) {
        let it = EmptyDocIdSetIterator::new();
        assert(it.view() =~= (DocIds { docs: self.docs(), doc: -1 }));
        Ok(it)
    }

    fn bits(&self) -> (r: Result<Option<MatchAllBits>, LuceneError>)
        ensures
            r matches Ok(None),
    {
        Ok(None)
    }

    fn ram_bytes_used(&self) -> (r: i64) {
        0
    }
}

/// The set of all documents below a limit.
#[derive(Debug, Clone, Copy)]
pub struct AllDocIdSet {
    max_doc: i32,
}

impl AllDocIdSet {
    /// The end (exclusive) of the documents.
    pub closed spec fn end(&self) -> int {
        self.max_doc as int
    }

    /// Creates the set of the documents `[0, max_doc)`.
    pub fn new(max_doc: i32) -> (r: Self)
        ensures
            r.end() == max_doc,
    {
        AllDocIdSet { max_doc }
    }

    /// Returns the end (exclusive) of the documents.
    pub fn max_doc(&self) -> (r: i32)
        ensures
            r == self.end(),
    {
        self.max_doc
    }
}

impl DocIdSet for AllDocIdSet {
    type I = AllDocIdSetIterator;

    type B = MatchAllBits;

    open spec fn docs(&self) -> Set<int> {
        doc_range(0, self.end())
    }

    open spec fn readable(&self) -> bool {
        self.end() >= 0
    }

    open spec fn bytes_used(&self) -> i64 {
        4
    }

    fn iterator(&self) -> (r: Result<AllDocIdSetIterator, LuceneError>)
        ensures
            r matches Err(e) ==> e.is_illegal_argument(
                "maxDoc must be >= 0, but got maxDoc="@ + decimal_int(self.end()),
            ),
    {
        AllDocIdSetIterator::new(self.max_doc)
    }

    fn bits(&self) -> (r: Result<Option<MatchAllBits>, LuceneError>)
        ensures
            r matches Ok(Some(bits)) && bits.bit_seq() == Seq::new(
                if self.end() > 0 {
                    self.end() as nat
                } else {
                    0
                },
                |i: int| true,
            ),
    {
        let length: usize = if self.max_doc > 0 {
            self.max_doc as usize
        } else {
            0
        };
        Ok(Some(MatchAllBits::new(length)))
    }

    fn ram_bytes_used(&self) -> (r: i64) {
        4
    }
}

/// Returns the set without documents.
pub fn empty() -> (r: EmptyDocIdSet)
    ensures
        r.docs() == Set::<int>::empty(),
{
    EmptyDocIdSet
}

/// Returns the set of the documents `[0, max_doc)`.
pub fn all(max_doc: i32) -> (r: AllDocIdSet)
    ensures
        r.end() == max_doc,
        r.docs() == doc_range(0, max_doc as int),
{
    AllDocIdSet::new(max_doc)
}

} // verus!
