//! Scorers of clauses with a boost.

use vstd::prelude::*;

use crate::search::scorer::Scorer;

verus! {

/// A scorer with a boost, an integer that is ordered like it.
pub trait IndriScorer: Scorer {
    /// The boost.
    spec fn boost(&self) -> i32;

    /// Returns the boost.
    fn get_boost(&self) -> (r: i32)
        ensures
            r == self.boost(),
    ;
}

/// A clause whose scorer may have a boost.
pub trait IndriClause: Scorer {
    /// The boost; `None` when the scorer has none.
    spec fn indri_boost(&self) -> Option<i32>;

    /// Returns the boost; `None` when the scorer has none.
    fn as_indri_scorer(&self) -> (r: Option<i32>)
        ensures
            r == self.indri_boost(),
    ;
}

} // verus!
