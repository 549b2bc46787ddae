//! Explanations of why documents match and of their scores.

use vstd::prelude::*;

verus! {

/// Explains why a document matches, or does not match, a query.
///
/// The value is a floating-point number elsewhere; here it is an integer that is
/// ordered like it.
#[derive(Debug)]
pub struct Explanation {
    /// Whether the document matches.
    pub is_match: bool,
    /// The score.
    pub value: i32,
    /// Says what the value is.
    pub description: String,
    /// What the value is made of.
    pub details: Vec<Explanation>,
}

impl Explanation {
    /// Explains that a document does not match.
    pub fn no_match(description: String, details: Vec<Explanation>) -> (r: Self)
        ensures
            !r.is_match,
            r.value == 0,
            r.description == description,
            r.details == details,
    {
        Explanation { is_match: false, value: 0, description, details }
    }

    /// Explains that a document matches.
    pub fn matched(value: i32, description: String, details: Vec<Explanation>) -> (r: Self)
        ensures
            r.is_match,
            r.value == value,
            r.description == description,
            r.details == details,
    {
        Explanation { is_match: true, value, description, details }
    }
}

} // verus!
