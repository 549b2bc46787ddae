//! How the hits of a search are used.

use vstd::prelude::*;

verus! {

/// Whether a search needs scores, and whether it visits all matches.
#[allow(non_camel_case_types)]
#[derive(Debug, Clone, Copy, PartialEq, Eq, Structural)]
pub enum ScoreMode {
    /// All matches are visited, with their scores.
    COMPLETE,
    /// All matches are visited, without scores.
    COMPLETE_NO_SCORES,
    /// Only the matches with the greatest scores are visited.
    TOP_SCORES,
    /// Only the first matches by an order other than scores are visited.
    TOP_DOCS,
    /// Like [`ScoreMode::TOP_DOCS`], with scores.
    TOP_DOCS_WITH_SCORES,
}

impl ScoreMode {
    /// Whether scores are needed.
    pub open spec fn scored(self) -> bool {
        self == ScoreMode::COMPLETE || self == ScoreMode::TOP_SCORES || self
            == ScoreMode::TOP_DOCS_WITH_SCORES
    }

    /// Returns whether scores are needed.
    pub fn needs_scores(self) -> (r: bool)
        ensures
            r == self.scored(),
    {
        match self {
            ScoreMode::COMPLETE => true,
            ScoreMode::COMPLETE_NO_SCORES => false,
            ScoreMode::TOP_SCORES => true,
            ScoreMode::TOP_DOCS => false,
            ScoreMode::TOP_DOCS_WITH_SCORES => true,
        }
    }
}

} // verus!
