//! Iteration over the positions of the matches in a document.

use std::sync::Arc;

use vstd::prelude::*;

use crate::error::LuceneError;

verus! {

/// Where a match is: its first and last positions, and its offsets. Positions are
/// -1 where they are not known.
#[derive(Debug, Clone, Copy)]
pub struct Span {
    /// The first position.
    pub start: i32,
    /// The last position.
    pub end: i32,
    /// The offset of the first character.
    pub start_offset: i32,
    /// The offset after the last character.
    pub end_offset: i32,
}

/// A match: where it is, the query that it is of, and the matches that it is made of.
pub struct FoundMatch<Q, S> {
    /// Where the match is.
    pub span: Span,
    /// The query that the match is of.
    pub query: Arc<Q>,
    /// The matches that the match is made of.
    pub sub: Option<S>,
}

/// The abstract state of a [`MatchesIterator`].
#[verifier::ext_equal]
pub struct MatchView<Q, S> {
    /// The current match.
    pub current: Option<FoundMatch<Q, S>>,
    /// The matches that follow.
    pub rest: Seq<FoundMatch<Q, S>>,
    /// Whether the iterator has said that there are no more matches.
    pub ended: bool,
}

impl<Q, S> MatchView<Q, S> {
    /// The state after moving to the next match.
    pub open spec fn next(self) -> MatchView<Q, S> {
        if self.rest.len() > 0 {
            MatchView { current: Some(self.rest[0]), rest: self.rest.drop_first(), ended: false }
        } else {
            MatchView { current: None, rest: Seq::empty(), ended: true }
        }
    }
}

/// An iterator over the positions of the matches in a document.
pub trait MatchesIterator {
    /// The query that a match is of.
    type Query;

    /// The matches that a match is made of.
    type Sub;

    /// The matches, and the current one.
    spec fn view(&self) -> MatchView<Self::Query, Self::Sub>;

    /// The internal invariant of the implementation.
    spec fn inv(&self) -> bool;

    /// Whether no step fails.
    spec fn infallible(&self) -> bool;

    /// Moves to the next match; returns `false` when there is none.
    ///
    /// # Errors
    ///
    /// Whatever reading the next match fails with.
    fn next(&mut self) -> (r: Result<bool, LuceneError>)
        requires
            old(self).inv(),
            !old(self).view().ended,
        ensures
            old(self).infallible() ==> r is Ok && final(self).infallible(),
            r matches Ok(more) ==> {
                &&& final(self).inv()
                &&& final(self).view() == old(self).view().next()
                &&& more == (old(self).view().rest.len() > 0)
            },
    ;

    /// Returns the first position of the current match; -1 if it is not known.
    fn start_position(&self) -> (r: i32)
        requires
            self.inv(),
            self.view().current is Some,
        ensures
            r == self.view().current->0.span.start,
    ;

    /// Returns the last position of the current match; -1 if it is not known.
    fn end_position(&self) -> (r: i32)
        requires
            self.inv(),
            self.view().current is Some,
        ensures
            r == self.view().current->0.span.end,
    ;

    /// Returns the offset of the first character of the current match.
    ///
    /// # Errors
    ///
    /// Whatever reading the offset fails with.
    fn start_offset(&self) -> (r: Result<i32, LuceneError>)
        requires
            self.inv(),
            self.view().current is Some,
        ensures
            self.infallible() ==> r is Ok,
            r matches Ok(o) ==> o == self.view().current->0.span.start_offset,
    ;

    /// Returns the offset after the last character of the current match.
    ///
    /// # Errors
    ///
    /// Whatever reading the offset fails with.
    fn end_offset(&self) -> (r: Result<i32, LuceneError>)
        requires
            self.inv(),
            self.view().current is Some,
        ensures
            self.infallible() ==> r is Ok,
            r matches Ok(o) ==> o == self.view().current->0.span.end_offset,
    ;

    /// Returns the matches that the current match is made of.
    ///
    /// # Errors
    ///
    /// Whatever reading the matches fails with.
    fn get_sub_matches(&self) -> (r: Result<Option<Self::Sub>, LuceneError>)
        requires
            self.inv(),
            self.view().current is Some,
        ensures
            self.infallible() ==> r is Ok,
            r matches Ok(sub) ==> sub == self.view().current->0.sub,
    ;

    /// Returns the query that the current match is of.
    fn get_query(&self) -> (r: Arc<Self::Query>)
        requires
            self.inv(),
            self.view().current is Some,
        ensures
            r == self.view().current->0.query,
    ;
}

} // verus!
