//! The best hits of a search, and how many hits there were.

use vstd::prelude::*;

use crate::search::index_searcher::ScoreDoc;

verus! {

/// How the number of hits that is reported relates to the number of hits there are.
#[derive(Debug, Clone, Copy, PartialEq, Eq, Structural)]
pub enum TotalHitsRelation {
    /// There are as many hits.
    EqualTo,
    /// There are as many hits, or more.
    GreaterThanOrEqualTo,
}

/// The number of hits.
#[derive(Debug, Clone, Copy, PartialEq, Eq, Structural)]
pub struct TotalHits {
    /// The number that is reported.
    pub value: i64,
    /// How it relates to the number of hits there are.
    pub relation: TotalHitsRelation,
}

/// The best hits of a search.
#[derive(Debug, Clone)]
pub struct TopDocs {
    /// The number of hits.
    pub total_hits: TotalHits,
    /// The best hits.
    pub score_docs: Vec<ScoreDoc>,
}

/// What [`TopDocs`] holds.
#[verifier::ext_equal]
pub struct TopDocsView {
    /// The number of hits.
    pub total_hits: TotalHits,
    /// The best hits.
    pub score_docs: Seq<ScoreDoc>,
}

impl View for TopDocs {
    type V = TopDocsView;

    open spec fn view(&self) -> TopDocsView {
        TopDocsView { total_hits: self.total_hits, score_docs: self.score_docs@ }
    }
}

} // verus!
