//! Where the comparators of sort fields come from.

use vstd::prelude::*;

use crate::error::LuceneError;
use crate::search::field_comparator::FieldComparator;

verus! {

/// Which hits a comparator may leave out.
#[derive(Debug, Clone, Copy, PartialEq, Eq, Structural)]
pub enum Pruning {
    /// None.
    NONE,
    /// Those that are worse than the worst one.
    GREATER_THAN,
    /// Those that are not better than the worst one.
    GREATER_THAN_OR_EQUAL_TO,
}

/// Creates comparators for the values of a field.
pub trait FieldComparatorSource {
    /// The comparators.
    type C: FieldComparator;

    /// Whether [`Self::new_comparator`] returns such a comparator.
    spec fn creates(
        &self,
        fieldname: Seq<char>,
        num_hits: int,
        pruning: Pruning,
        reversed: bool,
        comparator: Self::C,
    ) -> bool;

    /// Whether creating comparators never fails.
    spec fn infallible(&self) -> bool;

    /// Creates a comparator with slots for the given number of hits.
    ///
    /// # Errors
    ///
    /// Whatever reading the index fails with.
    fn new_comparator(
        &self,
        fieldname: &str,
        num_hits: usize,
        pruning: Pruning,
        reversed: bool,
    ) -> (r: Result<Self::C, LuceneError>)
        ensures
            self.infallible() ==> r is Ok,
            r matches Ok(c) ==> {
                &&& self.creates(fieldname@, num_hits as int, pruning, reversed, c)
                &&& c.inv()
                &&& c.slots().keys.len() == num_hits
            },
    ;
}

/// A field by which hits are sorted.
pub struct SortField<F> {
    /// The name of the field.
    pub field: String,
    /// Whether greater values come first.
    pub reverse: bool,
    /// Where the comparators come from.
    pub source: F,
}

impl<F: FieldComparatorSource> SortField<F> {
    /// Creates a comparator with slots for the given number of hits.
    ///
    /// # Errors
    ///
    /// Whatever reading the index fails with.
    pub fn get_comparator(&self, num_hits: usize, pruning: Pruning) -> (r: Result<
        F::C,
        LuceneError,
    >)
        ensures
            self.source.infallible() ==> r is Ok,
            r matches Ok(c) ==> {
                &&& self.source.creates(self.field@, num_hits as int, pruning, self.reverse, c)
                &&& c.inv()
                &&& c.slots().keys.len() == num_hits
            },
    {
        self.source.new_comparator(self.field.as_str(), num_hits, pruning, self.reverse)
    }
}

} // verus!
