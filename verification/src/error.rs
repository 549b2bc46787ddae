//! The errors that the library reports.

use vstd::prelude::*;

verus! {

/// An error raised by the library, or by an implementation of one of its
/// traits.
#[derive(Debug, Clone)]
pub enum LuceneError {
    /// An argument is outside the range that the operation accepts.
    IllegalArgument(String),
    /// The operation is not possible in the current state.
    IllegalState(String),
    /// The operation is never possible on this value.
    UnsupportedOperation(String),
    /// The operation would exceed a limit on resources.
    ResourceLimit(String),
    /// Reading from the underlying storage failed.
    Io(String),
}

impl LuceneError {
    /// Whether this is an [`LuceneError::IllegalArgument`] with the given text.
    pub open spec fn is_illegal_argument(&self, text: Seq<char>) -> bool {
        *self matches LuceneError::IllegalArgument(m) && m@ == text
    }

    /// Whether this is an [`LuceneError::IllegalState`] with the given text.
    pub open spec fn is_illegal_state(&self, text: Seq<char>) -> bool {
        *self matches LuceneError::IllegalState(m) && m@ == text
    }

    /// Whether this is an [`LuceneError::UnsupportedOperation`] with the given
    /// text.
    pub open spec fn is_unsupported_operation(&self, text: Seq<char>) -> bool {
        *self matches LuceneError::UnsupportedOperation(m) && m@ == text
    }

    /// The text of the error.
    pub open spec fn text(&self) -> Seq<char> {
        match *self {
            LuceneError::IllegalArgument(m) => m@,
            LuceneError::IllegalState(m) => m@,
            LuceneError::UnsupportedOperation(m) => m@,
            LuceneError::ResourceLimit(m) => m@,
            LuceneError::Io(m) => m@,
        }
    }

    /// Returns the text of the error.
    pub fn into_message(self) -> (r: String)
        ensures
            r@ == self.text(),
    {
        match self {
            LuceneError::IllegalArgument(m) => m,
            LuceneError::IllegalState(m) => m,
            LuceneError::UnsupportedOperation(m) => m,
            LuceneError::ResourceLimit(m) => m,
            LuceneError::Io(m) => m,
        }
    }
}

} // verus!
